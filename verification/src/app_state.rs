//! The state of the terminal interface and how each key press changes it.
//!
//! Reading processes, applying modes and drawing are the caller's work; a key
//! press yields an [`Outcome`] whose [`Effect`] names the work to do.

use vstd::prelude::*;
use std::collections::{HashMap, HashSet, VecDeque};
use vstd::string::*;
use crate::process::{score_process, sort_by_pid, sorts_by_pid, spec_score, Process};
use crate::text::{decimal, push_decimal};

verus! {

broadcast use vstd::std_specs::hash::group_hash_axioms;

/// A continuous mode re-applies itself this often, in milliseconds.
pub const REAPPLY_INTERVAL_MS: u64 = 5000;

/// The output panel keeps at most this many lines.
pub const MAX_OUTPUT_LINES: usize = 200;

/// A mode that re-applies itself while it is on.
#[derive(Clone, Copy, Debug, PartialEq, Eq, Structural)]
pub enum ContinuousMode {
    Eco,
    Performance,
}

/// A key press, as far as the interface tells keys apart.
#[derive(Clone, Copy, Debug, PartialEq, Eq, Structural)]
pub enum Key {
    Char(char),
    Up,
    Down,
    Other,
}

/// Work that a key press leaves to the caller.
#[derive(Clone, Copy, Debug, PartialEq, Eq, Structural)]
pub enum Effect {
    Nothing,
    /// Read the processes again and hand them to [`AppState::refresh`].
    Refresh,
    /// Run the continuous mode that is now on, and log what it did.
    ApplyContinuousMode,
    /// Spread every process over all cores, and log what it did.
    AutoBalance,
    /// Run gaming mode for this pid, and log what it did.
    Gaming(usize),
    /// Kill this pid, log what happened, then refresh.
    Kill(usize),
}

/// What the main loop does after a key press.
#[derive(Clone, Copy, Debug, PartialEq, Eq, Structural)]
pub struct Outcome {
    pub quit: bool,
    /// The screen must be cleared and drawn again.
    pub redraw: bool,
    pub effect: Effect,
}

/// The score of `pid` from the last reading: its usage score if it was running, else 0.
pub open spec fn usage_of(usage: Map<usize, u32>, pid: usize) -> u32 {
    if usage.contains_key(pid) {
        usage[pid]
    } else {
        0
    }
}

/// Whether some process of `processes` has pid `pid`.
pub open spec fn lists_pid(processes: Seq<Process>, pid: usize) -> bool {
    exists|i: int| 0 <= i < processes.len() && #[trigger] processes[i].pid == pid
}

/// The score of every listed process, given the marks and the last usage reading.
pub open spec fn score_table(
    processes: Seq<Process>,
    priority: Set<usize>,
    usage: Map<usize, u32>,
) -> Map<usize, u32> {
    Map::new(
        |pid: usize| lists_pid(processes, pid),
        |pid: usize| spec_score(usage.contains_key(pid), priority.contains(pid), usage_of(usage, pid)),
    )
}

/// The state as values.
pub struct AppView {
    pub processes: Seq<Process>,
    pub priority: Set<usize>,
    pub usage: Map<usize, u32>,
    pub scores: Map<usize, u32>,
    pub selected: Option<usize>,
    pub status: Seq<char>,
    pub output: Seq<Seq<char>>,
    pub mode: Option<ContinuousMode>,
}

impl AppView {
    /// The selection points at a listed process exactly when there is one; the output
    /// panel is within its limit; the scores are those of the listed processes.
    pub open spec fn wf(self) -> bool {
        &&& (self.selected is Some <==> self.processes.len() > 0)
        &&& (self.selected matches Some(i) ==> i < self.processes.len())
        &&& self.output.len() <= MAX_OUTPUT_LINES
        &&& self.scores == score_table(self.processes, self.priority, self.usage)
    }
}

/// The selection after the list changed: kept when still in range, else the last process.
pub open spec fn fixed_selection(selected: Option<usize>, len: nat) -> Option<usize> {
    match selected {
        Some(i) if i < len => Some(i),
        _ => if len == 0 {
            None
        } else {
            Some((len - 1) as usize)
        },
    }
}

/// The selection moved by `delta` rows and held within the list.
pub open spec fn moved_selection(selected: Option<usize>, len: nat, delta: int) -> Option<usize> {
    if len == 0 {
        selected
    } else {
        let current = match selected {
            Some(i) => i as int,
            None => 0,
        };
        let next = current + delta;
        Some(
            (if next < 0 {
                0
            } else if next > len - 1 {
                len - 1
            } else {
                next
            }) as usize,
        )
    }
}

/// `set` with `pid` added when absent and removed when present.
pub open spec fn toggled(set: Set<usize>, pid: usize) -> Set<usize> {
    if set.contains(pid) {
        set.remove(pid)
    } else {
        set.insert(pid)
    }
}

/// The last `n` items of `s` (all of them when there are fewer).
pub open spec fn keep_last<T>(s: Seq<T>, n: nat) -> Seq<T> {
    if s.len() <= n {
        s
    } else {
        s.skip(s.len() - n)
    }
}

/// The lines of the output panel as values.
pub open spec fn line_views(lines: Seq<String>) -> Seq<Seq<char>> {
    lines.map_values(|s: String| s@)
}

/// No redraw, nothing to do.
pub open spec fn stay() -> Outcome {
    Outcome { quit: false, redraw: false, effect: Effect::Nothing }
}

/// Redraw, then do `effect`.
pub open spec fn redraw_then(effect: Effect) -> Outcome {
    Outcome { quit: false, redraw: true, effect }
}

/// The continuous mode after its key: off when `mode` was on, else `mode`.
pub open spec fn toggled_mode(current: Option<ContinuousMode>, mode: ContinuousMode) -> Option<ContinuousMode> {
    if current == Some(mode) {
        None
    } else {
        Some(mode)
    }
}

/// The marks after the priority key.
pub open spec fn marks_after_toggle(v: AppView) -> Set<usize> {
    match v.selected {
        Some(i) => toggled(v.priority, v.processes[i as int].pid),
        None => v.priority,
    }
}

/// The status of running performance mode with `marked` pids marked.
pub open spec fn performance_status(marked: nat) -> Seq<char> {
    "Performance mode running ("@ + decimal(marked) + " priority pids, re-applies every 5s)"@
}

/// `prefix`, the process name, and its pid in brackets.
pub open spec fn process_status(prefix: Seq<char>, name: Seq<char>, pid: usize) -> Seq<char> {
    prefix + name + " ("@ + decimal(pid as nat) + ")"@
}

/// What a key press asks of the caller.
pub open spec fn key_outcome(v: AppView, key: Key) -> Outcome {
    match key {
        Key::Char('q') => Outcome { quit: true, redraw: false, effect: Effect::Nothing },
        Key::Up => stay(),
        Key::Down => stay(),
        Key::Char(' ') => redraw_then(Effect::Nothing),
        Key::Char('r') => redraw_then(Effect::Refresh),
        Key::Char('e') => if v.mode == Some(ContinuousMode::Eco) {
            redraw_then(Effect::Nothing)
        } else {
            redraw_then(Effect::ApplyContinuousMode)
        },
        Key::Char('p') => if v.mode == Some(ContinuousMode::Performance) {
            redraw_then(Effect::Nothing)
        } else {
            redraw_then(Effect::ApplyContinuousMode)
        },
        Key::Char('a') => redraw_then(Effect::AutoBalance),
        Key::Char('g') => match v.selected {
            Some(i) => redraw_then(Effect::Gaming(v.processes[i as int].pid)),
            None => redraw_then(Effect::Nothing),
        },
        Key::Char('k') => match v.selected {
            Some(i) => redraw_then(Effect::Kill(v.processes[i as int].pid)),
            None => redraw_then(Effect::Nothing),
        },
        _ => stay(),
    }
}

/// The state after a key press (before the caller's work).
pub open spec fn key_state(v: AppView, key: Key) -> AppView {
    match key {
        Key::Up => AppView { selected: moved_selection(v.selected, v.processes.len(), -1), ..v },
        Key::Down => AppView { selected: moved_selection(v.selected, v.processes.len(), 1), ..v },
        Key::Char(' ') => AppView {
            priority: marks_after_toggle(v),
            scores: score_table(v.processes, marks_after_toggle(v), v.usage),
            ..v
        },
        Key::Char('r') => AppView { status: "Refreshed process list"@, ..v },
        Key::Char('e') => if v.mode == Some(ContinuousMode::Eco) {
            AppView { mode: None, status: "Eco mode stopped"@, ..v }
        } else {
            AppView {
                mode: Some(ContinuousMode::Eco),
                status: "Eco mode running (re-applies every 5s)"@,
                ..v
            }
        },
        Key::Char('p') => if v.mode == Some(ContinuousMode::Performance) {
            AppView { mode: None, status: "Performance mode stopped"@, ..v }
        } else {
            AppView {
                mode: Some(ContinuousMode::Performance),
                status: performance_status(v.priority.len()),
                ..v
            }
        },
        Key::Char('a') => AppView { status: "Auto-balanced across all cores"@, ..v },
        Key::Char('g') => match v.selected {
            Some(i) => AppView {
                status: process_status(
                    "Gaming mode: reserved cores for "@,
                    v.processes[i as int].name@,
                    v.processes[i as int].pid,
                ),
                ..v
            },
            None => v,
        },
        Key::Char('k') => match v.selected {
            Some(i) => AppView {
                status: process_status(
                    "Killed "@,
                    v.processes[i as int].name@,
                    v.processes[i as int].pid,
                ),
                ..v
            },
            None => v,
        },
        _ => v,
    }
}

/// The keys the interface knows, as the help line lists them.
pub const HELP_TEXT: &'static str = "up/down select  space priority  e toggle eco  p toggle performance  a auto-balance  g gaming  k kill selected  r refresh  q quit";

/// The header's note on the continuous mode.
pub open spec fn mode_label(mode: Option<ContinuousMode>) -> Seq<char> {
    match mode {
        Some(ContinuousMode::Eco) => " — eco mode: ON"@,
        Some(ContinuousMode::Performance) => " — performance mode: ON"@,
        None => ""@,
    }
}

/// The score shown for `pid`: its score, or 0 when it has none.
pub open spec fn shown_score(scores: Map<usize, u32>, pid: usize) -> u32 {
    if scores.contains_key(pid) {
        scores[pid]
    } else {
        0
    }
}

/// The cells of one row of the process table.
pub struct ProcessRow {
    pub pid: String,
    pub name: String,
    pub score: String,
    /// `*` for a marked process, else empty.
    pub marker: String,
    pub is_priority: bool,
    pub is_selected: bool,
}

/// The interface state: the processes shown (sorted by pid), the pids marked priority,
/// the last usage reading and the scores from it, the selected row, the status line,
/// the output panel and the continuous mode.
pub struct AppState {
    processes: Vec<Process>,
    priority: HashSet<usize>,
    usage: HashMap<usize, u32>,
    scores: HashMap<usize, u32>,
    selected: Option<usize>,
    status: String,
    output: VecDeque<String>,
    continuous_mode: Option<ContinuousMode>,
}

impl View for AppState {
    type V = AppView;

    closed spec fn view(&self) -> AppView {
        AppView {
            processes: self.processes@,
            priority: self.priority@,
            usage: self.usage@,
            scores: self.scores@,
            selected: self.selected,
            status: self.status@,
            output: line_views(self.output@),
            mode: self.continuous_mode,
        }
    }
}

/// Computes the score of every listed process.
fn compute_scores(
    processes: &Vec<Process>,
    priority: &HashSet<usize>,
    usage: &HashMap<usize, u32>,
) -> (scores: HashMap<usize, u32>)
    ensures
        scores@ == score_table(processes@, priority@, usage@),
{
    let mut scores: HashMap<usize, u32> = HashMap::new();
    let mut i: usize = 0;
    while i < processes.len()
        invariant
            i <= processes@.len(),
            forall|pid: usize| #[trigger]
                scores@.contains_key(pid) <==> lists_pid(processes@.take(i as int), pid),
            forall|pid: usize| #[trigger]
                scores@.contains_key(pid) ==> scores@[pid] == spec_score(
                    usage@.contains_key(pid),
                    priority@.contains(pid),
                    usage_of(usage@, pid),
                ),
        decreases processes@.len() - i,
    {
        let pid = processes[i].pid;
        let present = usage.contains_key(&pid);
        let reading = match usage.get(&pid) {
            Some(u) => *u,
            None => 0,
        };
        let score = score_process(present, priority.contains(&pid), reading);
        scores.insert(pid, score);
        proof {
            let before = processes@.take(i as int);
            let after = processes@.take(i + 1);
            assert forall|q: usize| lists_pid(after, q) <==> (lists_pid(before, q) || q == pid) by {
                if lists_pid(after, q) {
                    let k = choose|k: int| 0 <= k < after.len() && #[trigger] after[k].pid == q;
                    if k < i {
                        assert(before[k].pid == q);
                    }
                }
                if lists_pid(before, q) {
                    let k = choose|k: int| 0 <= k < before.len() && #[trigger] before[k].pid == q;
                    assert(after[k].pid == q);
                }
                if q == pid {
                    assert(after[i as int].pid == q);
                }
            }
        }
        i = i + 1;
    }
    assert(processes@.take(i as int) =~= processes@);
    assert(scores@ =~= score_table(processes@, priority@, usage@));
    scores
}

impl AppState {
    /// A consistent state.
    pub open spec fn wf(&self) -> bool {
        self@.wf()
    }

    /// The interface at start: the processes read (sorted by pid) with the first one
    /// selected, no marks, status `Ready`, an empty output panel and no mode on.
    pub fn new(processes: Vec<Process>, usage: HashMap<usize, u32>) -> (state: Self)
        ensures
            state.wf(),
            exists|order: Seq<int>| sorts_by_pid(processes@, state@.processes, order),
            state@.priority == Set::<usize>::empty(),
            state@.usage == usage@,
            state@.selected == (if processes@.len() > 0 {
                Some(0usize)
            } else {
                None
            }),
            state@.status == "Ready"@,
            state@.output == Seq::<Seq<char>>::empty(),
            state@.mode == None::<ContinuousMode>,
    {
        let sorted = sort_by_pid(processes);
        let priority: HashSet<usize> = HashSet::new();
        let scores = compute_scores(&sorted, &priority, &usage);
        let selected = if sorted.len() > 0 {
            Some(0)
        } else {
            None
        };
        let state = AppState {
            processes: sorted,
            priority,
            usage,
            scores,
            selected,
            status: "Ready".to_owned(),
            output: VecDeque::new(),
            continuous_mode: None,
        };
        assert(state@.output =~= Seq::<Seq<char>>::empty());
        state
    }

    /// Takes in a new reading: the processes (sorted by pid) and their usage scores; the
    /// selection is kept when still in range, else moved to the last process; scores are
    /// recomputed.
    pub fn refresh(&mut self, processes: Vec<Process>, usage: HashMap<usize, u32>)
        requires
            old(self).wf(),
        ensures
            final(self).wf(),
            exists|order: Seq<int>| sorts_by_pid(processes@, final(self)@.processes, order),
            final(self)@.usage == usage@,
            final(self)@.selected == fixed_selection(old(self)@.selected, processes@.len()),
            final(self)@.priority == old(self)@.priority,
            final(self)@.status == old(self)@.status,
            final(self)@.output == old(self)@.output,
            final(self)@.mode == old(self)@.mode,
    {
        let sorted = sort_by_pid(processes);
        let len = sorted.len();
        let selected = match self.selected {
            Some(i) if i < len => Some(i),
            _ => if len == 0 {
                None
            } else {
                Some(len - 1)
            },
        };
        let scores = compute_scores(&sorted, &self.priority, &usage);
        self.processes = sorted;
        self.usage = usage;
        self.scores = scores;
        self.selected = selected;
    }

    /// Moves the selection by `delta` rows, held within the list; nothing changes when
    /// the list is empty.
    pub fn move_selection(&mut self, delta: i32)
        requires
            old(self).wf(),
            old(self)@.processes.len() <= i32::MAX,
            i32::MIN <= (match old(self)@.selected {
                Some(i) => i as int,
                None => 0,
            }) + delta <= i32::MAX,
        ensures
            final(self).wf(),
            final(self)@ == (AppView {
                selected: moved_selection(old(self)@.selected, old(self)@.processes.len(), delta as int),
                ..old(self)@
            }),
    {
        if self.processes.len() == 0 {
            return;
        }
        let len = self.processes.len() as i32;
        let current = match self.selected {
            Some(i) => i as i32,
            None => 0,
        };
        let wanted = current + delta;
        let next = if wanted < 0 {
            0
        } else if wanted > len - 1 {
            len - 1
        } else {
            wanted
        };
        self.selected = Some(next as usize);
    }

    /// Marks the selected process as priority, or unmarks it when marked; the scores
    /// follow.
    pub fn toggle_priority(&mut self)
        requires
            old(self).wf(),
        ensures
            final(self).wf(),
            final(self)@.priority == match old(self)@.selected {
                Some(i) => toggled(old(self)@.priority, old(self)@.processes[i as int].pid),
                None => old(self)@.priority,
            },
            final(self)@.processes == old(self)@.processes,
            final(self)@.usage == old(self)@.usage,
            final(self)@.selected == old(self)@.selected,
            final(self)@.status == old(self)@.status,
            final(self)@.output == old(self)@.output,
            final(self)@.mode == old(self)@.mode,
    {
        match self.selected {
            Some(i) => {
                let pid = self.processes[i].pid;
                if !self.priority.remove(&pid) {
                    self.priority.insert(pid);
                }
            },
            None => {},
        }
        self.scores = compute_scores(&self.processes, &self.priority, &self.usage);
    }

    /// The selected process, if any.
    pub fn selected_process(&self) -> (process: Option<&Process>)
        requires
            self.wf(),
        ensures
            process == match self@.selected {
                Some(i) => Some(&self@.processes[i as int]),
                None => None,
            },
    {
        match self.selected {
            Some(i) => Some(&self.processes[i]),
            None => None,
        }
    }

    /// Appends lines to the output panel, dropping the oldest beyond its limit.
    pub fn log(&mut self, lines: Vec<String>)
        requires
            old(self).wf(),
        ensures
            final(self).wf(),
            final(self)@ == (AppView {
                output: keep_last(old(self)@.output + line_views(lines@), MAX_OUTPUT_LINES as nat),
                ..old(self)@
            }),
    {
        let ghost start = old(self)@.output;
        let ghost incoming = line_views(lines@);
        let mut rest = lines;
        let mut i: usize = 0;
        let total = rest.len();
        while rest.len() > 0
            invariant
                self.wf(),
                i <= total,
                total == incoming.len(),
                line_views(rest@) == incoming.skip(i as int),
                self@ == (AppView {
                    output: keep_last(start + incoming.take(i as int), MAX_OUTPUT_LINES as nat),
                    ..old(self)@
                }),
            decreases rest@.len(),
        {
            assert(line_views(rest@).len() == rest@.len());
            assert(i < total);
            assert(line_views(rest@)[0] == incoming.skip(i as int)[0]);
            assert(line_views(rest@)[0] == incoming[i as int]);
            let ghost old_rest = rest@;
            let line = rest.remove(0);
            let ghost before = self@.output;
            if self.output.len() >= MAX_OUTPUT_LINES {
                self.output.pop_front();
            }
            self.output.push_back(line);
            proof {
                let all = start + incoming.take(i as int);
                let next = start + incoming.take(i + 1);
                assert(next =~= all.push(incoming[i as int]));
                assert forall|k: int| 0 <= k < rest@.len() implies line_views(rest@)[k] == incoming.skip(
                    i + 1,
                )[k] by {
                    assert(rest@[k] == old_rest[k + 1]);
                    assert(line_views(old_rest)[k + 1] == incoming.skip(i as int)[k + 1]);
                }
                assert(line_views(rest@) =~= incoming.skip(i + 1));
                if before.len() >= MAX_OUTPUT_LINES {
                    assert(line_views(self.output@) =~= before.subrange(1, before.len() as int).push(
                        line@,
                    ));
                    assert(keep_last(next, MAX_OUTPUT_LINES as nat) =~= keep_last(all, MAX_OUTPUT_LINES as nat).subrange(
                        1,
                        MAX_OUTPUT_LINES as int,
                    ).push(incoming[i as int]));
                } else {
                    assert(line_views(self.output@) =~= before.push(line@));
                    assert(keep_last(next, MAX_OUTPUT_LINES as nat) =~= keep_last(all, MAX_OUTPUT_LINES as nat).push(
                        incoming[i as int],
                    ));
                }
            }
            i = i + 1;
        }
        assert(incoming.take(i as int) =~= incoming);
    }

    /// Builds `prefix`, the name of `process` and its pid in brackets.
    fn process_message(prefix: &str, process: &Process) -> (message: String)
        ensures
            message@ == process_status(prefix@, process.name@, process.pid),
    {
        let mut message = prefix.to_owned();
        message.append(process.name.as_str());
        message.append(" (");
        push_decimal(&mut message, process.pid);
        message.append(")");
        message
    }

    /// Handles a key press: moves the selection, toggles a mark or a continuous mode,
    /// sets the status line, and says what the caller must do next.
    pub fn handle_key(&mut self, key: Key) -> (outcome: Outcome)
        requires
            old(self).wf(),
            (key == Key::Up || key == Key::Down) ==> old(self)@.processes.len() <= i32::MAX,
        ensures
            final(self).wf(),
            outcome == key_outcome(old(self)@, key),
            final(self)@ == key_state(old(self)@, key),
    {
        match key {
            Key::Char('q') => Outcome { quit: true, redraw: false, effect: Effect::Nothing },
            Key::Up => {
                self.move_selection(-1);
                Outcome { quit: false, redraw: false, effect: Effect::Nothing }
            },
            Key::Down => {
                self.move_selection(1);
                Outcome { quit: false, redraw: false, effect: Effect::Nothing }
            },
            Key::Char(' ') => {
                self.toggle_priority();
                Outcome { quit: false, redraw: true, effect: Effect::Nothing }
            },
            Key::Char('r') => {
                self.status = "Refreshed process list".to_owned();
                Outcome { quit: false, redraw: true, effect: Effect::Refresh }
            },
            Key::Char('e') => {
                if self.continuous_mode == Some(ContinuousMode::Eco) {
                    self.continuous_mode = None;
                    self.status = "Eco mode stopped".to_owned();
                    Outcome { quit: false, redraw: true, effect: Effect::Nothing }
                } else {
                    self.continuous_mode = Some(ContinuousMode::Eco);
                    self.status = "Eco mode running (re-applies every 5s)".to_owned();
                    Outcome { quit: false, redraw: true, effect: Effect::ApplyContinuousMode }
                }
            },
            Key::Char('p') => {
                if self.continuous_mode == Some(ContinuousMode::Performance) {
                    self.continuous_mode = None;
                    self.status = "Performance mode stopped".to_owned();
                    Outcome { quit: false, redraw: true, effect: Effect::Nothing }
                } else {
                    self.continuous_mode = Some(ContinuousMode::Performance);
                    let mut status = "Performance mode running (".to_owned();
                    push_decimal(&mut status, self.priority.len());
                    status.append(" priority pids, re-applies every 5s)");
                    self.status = status;
                    Outcome { quit: false, redraw: true, effect: Effect::ApplyContinuousMode }
                }
            },
            Key::Char('a') => {
                self.status = "Auto-balanced across all cores".to_owned();
                Outcome { quit: false, redraw: true, effect: Effect::AutoBalance }
            },
            Key::Char('g') => {
                match self.selected {
                    Some(i) => {
                        let message = Self::process_message(
                            "Gaming mode: reserved cores for ",
                            &self.processes[i],
                        );
                        let pid = self.processes[i].pid;
                        self.status = message;
                        Outcome { quit: false, redraw: true, effect: Effect::Gaming(pid) }
                    },
                    None => Outcome { quit: false, redraw: true, effect: Effect::Nothing },
                }
            },
            Key::Char('k') => {
                match self.selected {
                    Some(i) => {
                        let message = Self::process_message("Killed ", &self.processes[i]);
                        let pid = self.processes[i].pid;
                        self.status = message;
                        Outcome { quit: false, redraw: true, effect: Effect::Kill(pid) }
                    },
                    None => Outcome { quit: false, redraw: true, effect: Effect::Nothing },
                }
            },
            _ => Outcome { quit: false, redraw: false, effect: Effect::Nothing },
        }
    }

    /// The processes shown, sorted by pid.
    pub fn processes(&self) -> (processes: &Vec<Process>)
        ensures
            processes@ == self@.processes,
    {
        &self.processes
    }

    /// The pids marked as priority.
    pub fn priority(&self) -> (priority: &HashSet<usize>)
        ensures
            priority@ == self@.priority,
    {
        &self.priority
    }

    /// The selected row.
    pub fn selected(&self) -> (selected: Option<usize>)
        ensures
            selected == self@.selected,
    {
        self.selected
    }

    /// The status line.
    pub fn status(&self) -> (status: &str)
        ensures
            status@ == self@.status,
    {
        self.status.as_str()
    }

    /// The continuous mode that is on, if any.
    pub fn continuous_mode(&self) -> (mode: Option<ContinuousMode>)
        ensures
            mode == self@.mode,
    {
        self.continuous_mode
    }

    /// The number of lines in the output panel.
    pub fn output_len(&self) -> (len: usize)
        ensures
            len == self@.output.len(),
    {
        self.output.len()
    }

    /// The score shown for `pid` (0 when it has none).
    pub fn score_of(&self, pid: usize) -> (score: u32)
        ensures
            score == shown_score(self@.scores, pid),
    {
        match self.scores.get(&pid) {
            Some(s) => *s,
            None => 0,
        }
    }

    /// The header: how many processes are shown and marked, and which mode is on.
    pub fn header_text(&self) -> (text: String)
        ensures
            text@ == decimal(self@.processes.len()) + " processes — "@ + decimal(self@.priority.len())
                + " marked priority"@ + mode_label(self@.mode),
    {
        let mut text = String::new();
        push_decimal(&mut text, self.processes.len());
        text.append(" processes — ");
        push_decimal(&mut text, self.priority.len());
        text.append(" marked priority");
        let label = match self.continuous_mode {
            Some(ContinuousMode::Eco) => " — eco mode: ON",
            Some(ContinuousMode::Performance) => " — performance mode: ON",
            None => "",
        };
        text.append(label);
        text
    }

    /// The help line: the keys, then the status.
    pub fn help_line(&self) -> (line: String)
        ensures
            line@ == HELP_TEXT@ + " | "@ + self@.status,
    {
        let mut line = HELP_TEXT.to_owned();
        line.append(" | ");
        line.append(self.status.as_str());
        line
    }

    /// The cells of row `i` of the process table.
    pub fn process_row(&self, i: usize) -> (row: ProcessRow)
        requires
            i < self@.processes.len(),
        ensures
            ({
                let p = self@.processes[i as int];
                &&& row.pid@ == decimal(p.pid as nat)
                &&& row.name@ == p.name@
                &&& row.score@ == decimal(shown_score(self@.scores, p.pid) as nat)
                &&& row.is_priority == self@.priority.contains(p.pid)
                &&& row.marker@ == (if row.is_priority { "*"@ } else { ""@ })
                &&& row.is_selected == (self@.selected == Some(i))
            }),
    {
        let process = &self.processes[i];
        let pid_text = {
            let mut t = String::new();
            push_decimal(&mut t, process.pid);
            t
        };
        let score_text = {
            let mut t = String::new();
            push_decimal(&mut t, self.score_of(process.pid) as usize);
            t
        };
        let is_priority = self.priority.contains(&process.pid);
        let marker = if is_priority {
            "*".to_owned()
        } else {
            "".to_owned()
        };
        let is_selected = match self.selected {
            Some(s) => s == i,
            None => false,
        };
        assert(pid_text@ =~= decimal(process.pid as nat));
        assert(score_text@ =~= decimal(shown_score(self@.scores, process.pid) as nat));
        ProcessRow {
            pid: pid_text,
            name: process.name.clone(),
            score: score_text,
            marker,
            is_priority,
            is_selected,
        }
    }

    /// The newest lines of the output panel that fit a box `height` rows tall (two rows
    /// go to its border), oldest first.
    pub fn visible_output(&self, height: u16) -> (lines: Vec<String>)
        requires
            self.wf(),
        ensures
            line_views(lines@) == keep_last(
                self@.output,
                (if height >= 2 { height - 2 } else { 0 }) as nat,
            ),
    {
        let room: usize = if height >= 2 { (height - 2) as usize } else { 0 };
        let len = self.output.len();
        let first = if len > room { len - room } else { 0 };
        let mut lines: Vec<String> = Vec::new();
        let mut k = first;
        while k < len
            invariant
                first <= k <= len,
                len == self.output@.len(),
                line_views(lines@) == line_views(self.output@).subrange(first as int, k as int),
            decreases len - k,
        {
            let ghost before = lines@;
            let line = self.output[k].clone();
            assert(line@ == line_views(self.output@)[k as int]);
            lines.push(line);
            assert(line_views(lines@) =~= line_views(before).push(line@));
            k = k + 1;
            assert(line_views(lines@) =~= line_views(self.output@).subrange(first as int, k as int));
        }
        assert(line_views(self.output@).subrange(first as int, len as int) =~= keep_last(
            self@.output,
            room as nat,
        ));
        lines
    }

    /// Whether the continuous mode is due to run again after `elapsed_ms` milliseconds since
    /// it last ran: a mode is on and at least the re-apply interval has passed.
    pub fn reapply_due(&self, elapsed_ms: u64) -> (due: bool)
        ensures
            due == (self@.mode is Some && elapsed_ms >= REAPPLY_INTERVAL_MS),
    {
        self.continuous_mode.is_some() && elapsed_ms >= REAPPLY_INTERVAL_MS
    }
}

/// Marking a pid twice leaves the marks as they were.
pub proof fn law_toggle_twice(set: Set<usize>, pid: usize)
    ensures
        toggled(toggled(set, pid), pid) == set,
{
    assert(toggled(toggled(set, pid), pid) =~= set);
}

/// Pressing the priority key twice leaves the marks and the scores as they were.
pub proof fn law_priority_key_twice(v: AppView)
    requires
        v.wf(),
    ensures
        key_state(key_state(v, Key::Char(' ')), Key::Char(' ')).priority == v.priority,
        key_state(key_state(v, Key::Char(' ')), Key::Char(' ')).scores == v.scores,
{
    let once = key_state(v, Key::Char(' '));
    match v.selected {
        Some(i) => law_toggle_twice(v.priority, v.processes[i as int].pid),
        None => {},
    }
    assert(key_state(once, Key::Char(' ')).priority == v.priority);
}

/// Pressing a mode's key twice from a state with no mode on leaves no mode on; pressing
/// it while that mode is on turns it off.
pub proof fn law_mode_key_toggles(v: AppView, c: char)
    requires
        c == 'e' || c == 'p',
    ensures
        c == 'e' ==> key_state(v, Key::Char(c)).mode == toggled_mode(v.mode, ContinuousMode::Eco),
        c == 'p' ==> key_state(v, Key::Char(c)).mode == toggled_mode(v.mode, ContinuousMode::Performance),
        v.mode is None ==> key_state(key_state(v, Key::Char(c)), Key::Char(c)).mode is None,
{
}

/// Only `q` quits, and quitting changes nothing and asks for no redraw.
pub proof fn law_only_q_quits(v: AppView, key: Key)
    ensures
        key_outcome(v, key).quit == (key == Key::Char('q')),
        key == Key::Char('q') ==> key_state(v, key) == v && !key_outcome(v, key).redraw,
{
}

/// The keys that act (space, `r`, `e`, `p`, `a`, `g`, `k`) ask for a full redraw; the
/// arrows, `q` and every other key never do.
pub proof fn law_acting_keys_redraw(v: AppView, key: Key)
    ensures
        key_outcome(v, key).redraw == (key == Key::Char(' ') || key == Key::Char('r') || key
            == Key::Char('e') || key == Key::Char('p') || key == Key::Char('a') || key == Key::Char(
            'g',
        ) || key == Key::Char('k')),
{
}

/// A key press never breaks the consistency of the state.
pub proof fn law_keys_keep_state_consistent(v: AppView, key: Key)
    requires
        v.wf(),
        (key == Key::Up || key == Key::Down) ==> v.processes.len() <= i32::MAX,
    ensures
        key_state(v, key).wf(),
{
}

/// Moving the selection by `delta` lands on row `i + delta` when that row exists, and
/// otherwise on the nearest end of the list.
pub proof fn law_move_lands_on_nearest_row(i: usize, len: nat, delta: int)
    requires
        i < len,
    ensures
        0 <= i + delta < len ==> moved_selection(Some(i), len, delta) == Some((i + delta) as usize),
        i + delta < 0 ==> moved_selection(Some(i), len, delta) == Some(0usize),
        i + delta >= len ==> moved_selection(Some(i), len, delta) == Some((len - 1) as usize),
{
}

/// Up moves the selection one row up and Down one row down, staying on the first or last
/// row at the ends of the list.
pub proof fn law_arrows_move_one_row(v: AppView)
    requires
        v.wf(),
        v.processes.len() > 0,
    ensures
        ({
            let i = v.selected->0;
            let len = v.processes.len();
            &&& i > 0 ==> key_state(v, Key::Up).selected == Some((i - 1) as usize)
            &&& i == 0 ==> key_state(v, Key::Up).selected == Some(0usize)
            &&& i + 1 < len ==> key_state(v, Key::Down).selected == Some((i + 1) as usize)
            &&& i + 1 == len ==> key_state(v, Key::Down).selected == Some(i)
        }),
{
}

/// After a refresh to a list of `len` processes the selection stays on row `i` while that
/// row exists; a selection past the end, or none, moves to the last row; an empty list
/// has no selection.
pub proof fn law_refresh_keeps_or_clamps_selection(selected: Option<usize>, len: nat, i: usize)
    ensures
        len == 0 ==> fixed_selection(selected, len) == None::<usize>,
        selected == Some(i) && i < len ==> fixed_selection(selected, len) == Some(i),
        selected == Some(i) && i >= len && len > 0 ==> fixed_selection(selected, len) == Some(
            (len - 1) as usize,
        ),
        selected is None && len > 0 ==> fixed_selection(selected, len) == Some((len - 1) as usize),
{
}

} // verus!
