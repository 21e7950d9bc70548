//! The process table: processes by pid, and the per-process numbers that
//! the scheduling modes read.

use vstd::prelude::*;
use std::collections::HashMap;
use vstd::std_specs::iter::IteratorSpec;
use crate::ranking::{arranges, law_arrangement_is_unique, lemma_insert_step, lemma_rest_ranked_lower};

verus! {

broadcast use vstd::std_specs::hash::group_hash_axioms;

/// Score given to a process that the user marked as priority.
pub const PRIORITY_BONUS: u32 = 1_000_000;

/// A running process, as the modes see it.
#[derive(Debug)]
pub struct Process {
    pub pid: usize,
    pub name: String,
}

/// The name that a list of `(pid, name)` readings gives each pid: a pid read
/// more than once keeps its last reading.
pub open spec fn latest_names(entries: Seq<(usize, String)>) -> Map<usize, Seq<char>>
    decreases entries.len(),
{
    if entries.len() == 0 {
        Map::empty()
    } else {
        latest_names(entries.drop_last()).insert(entries.last().0, entries.last().1@)
    }
}

/// The table keys each process by its pid, and each entry's `pid` is its key.
pub open spec fn keyed_by_pid(table: Map<usize, Process>) -> bool {
    forall|pid: usize| #[trigger] table.contains_key(pid) ==> table[pid].pid == pid
}

/// Builds the process table from `(pid, name)` readings, in reading order.
pub fn processes_from(entries: &Vec<(usize, String)>) -> (table: HashMap<usize, Process>)
    ensures
        keyed_by_pid(table@),
        table@.dom() == latest_names(entries@).dom(),
        forall|pid: usize| #[trigger]
            table@.contains_key(pid) ==> table@[pid].name@ == latest_names(entries@)[pid],
{
    let mut table: HashMap<usize, Process> = HashMap::new();
    let mut i: usize = 0;
    while i < entries.len()
        invariant
            i <= entries@.len(),
            keyed_by_pid(table@),
            table@.dom() == latest_names(entries@.take(i as int)).dom(),
            forall|pid: usize| #[trigger]
                table@.contains_key(pid) ==> table@[pid].name@ == latest_names(
                    entries@.take(i as int),
                )[pid],
        decreases entries@.len() - i,
    {
        let pid = entries[i].0;
        let name = entries[i].1.clone();
        table.insert(pid, Process { pid, name });
        proof {
            assert(entries@.take(i + 1).drop_last() =~= entries@.take(i as int));
            assert(entries@.take(i + 1).last() == entries@[i as int]);
        }
        i = i + 1;
        assert(table@.dom() =~= latest_names(entries@.take(i as int)).dom());
    }
    assert(entries@.take(i as int) =~= entries@);
    table
}

/// Picks the pid of some process in the table (the first the table yields).
pub fn rand_pid(processes: HashMap<usize, Process>) -> (pid: usize)
    requires
        processes@.len() > 0,
    ensures
        processes@.contains_key(pid),
{
    for pid in it: processes.keys()
        invariant
            it.index() == 0,
            it.seq().len() == processes@.dom().len(),
            processes@.len() > 0,
    {
        proof {
            assert(it.seq().unref().to_set().contains(*pid));
        }
        return *pid;
    }
    proof {
        assert(false);
    }
    0
}

/// The pids of the table, each once, in the order the table yields them.
pub fn process_ids(processes: &HashMap<usize, Process>) -> (ids: Vec<usize>)
    ensures
        ids@.no_duplicates(),
        ids@.to_set() == processes@.dom(),
        ids@.len() == processes@.len(),
{
    let mut ids: Vec<usize> = Vec::new();
    for pid in it: processes.keys()
        invariant
            it.seq().unref().to_set() == processes@.dom(),
            it.seq().no_duplicates(),
            it.seq().len() == processes@.dom().len(),
            ids@ == it.seq().unref().take(it.index() as int),
            ids@.no_duplicates(),
            it.index() == it.seq().len() ==> ids@ == it.seq().unref(),
    {
        proof {
            let k = it.index();
            assert forall|j: int| 0 <= j < ids@.len() implies ids@[j] != *pid by {
                assert(it.seq()[j] != it.seq()[k as int]);
            }
        }
        ids.push(*pid);
        proof {
            assert(ids@ =~= it.seq().unref().take(it.index() + 1));
            assert(it.index() + 1 == it.seq().len() ==> ids@ =~= it.seq().unref());
        }
    }
    ids
}

/// A process's memory reading (sysinfo reports bytes) divided by 1024 and kept to 16 bits,
/// as a `u16` cast keeps it; 0 when the process is gone (`None`). The memory score reads
/// this number as its memory figure.
pub fn mem_process(memory: Option<u64>) -> (scaled: u16)
    ensures
        scaled == match memory {
            Some(reading) => ((reading / 1024) % 65536) as u16,
            None => 0u16,
        },
{
    match memory {
        Some(reading) => ((reading / 1024) % 65536) as u16,
        None => 0,
    }
}

/// The score that ranks a process: none for a process that is gone, the priority
/// bonus for one the user marked, else the score from its usage.
pub open spec fn spec_score(present: bool, is_priority: bool, usage: u32) -> u32 {
    if !present {
        0
    } else if is_priority {
        PRIORITY_BONUS
    } else {
        usage
    }
}

/// Scores a process from whether it still runs, whether it is marked priority, and the
/// score of its CPU and memory usage.
pub fn score_process(present: bool, is_priority: bool, usage: u32) -> (score: u32)
    ensures
        score == spec_score(present, is_priority, usage),
{
    if !present {
        return 0;
    }
    if is_priority {
        return PRIORITY_BONUS;
    }
    usage
}

/// A process is ranked by its pid, lowest first.
pub open spec fn pid_rank() -> spec_fn(Process) -> int {
    |process: Process| -(process.pid as int)
}

/// `sorted` is `processes` rearranged by `order`, in ascending pid order, processes with
/// equal pids keeping their original order.
pub open spec fn sorts_by_pid(processes: Seq<Process>, sorted: Seq<Process>, order: Seq<int>) -> bool {
    arranges(processes, sorted, order, pid_rank())
}

/// Sorts processes by pid, lowest first (a stable sort).
pub fn sort_by_pid(processes: Vec<Process>) -> (sorted: Vec<Process>)
    ensures
        exists|order: Seq<int>| sorts_by_pid(processes@, sorted@, order),
{
    let ghost input = processes@;
    let ghost rank = pid_rank();
    let total = processes.len();
    let mut rest = processes;
    let mut sorted: Vec<Process> = Vec::new();
    let ghost mut order: Seq<int> = Seq::empty();
    let mut i: usize = 0;
    while rest.len() > 0
        invariant
            i <= input.len(),
            input.len() == total,
            rank == pid_rank(),
            rest@ == input.skip(i as int),
            arranges(input.take(i as int), sorted@, order, rank),
        decreases rest@.len(),
    {
        assert(i < input.len());
        let process = rest.remove(0);
        assert(process == input[i as int]);
        let mut pos: usize = 0;
        while pos < sorted.len() && sorted[pos].pid <= process.pid
            invariant
                pos <= sorted@.len(),
                rank == pid_rank(),
                forall|k: int| 0 <= k < pos ==> rank(#[trigger] sorted@[k]) >= rank(process),
            decreases sorted@.len() - pos,
        {
            pos = pos + 1;
        }
        proof {
            lemma_rest_ranked_lower(input.take(i as int), sorted@, order, rank, pos as int, process);
            lemma_insert_step(input, i as int, sorted@, order, rank, pos as int);
            order = order.insert(pos as int, i as int);
            assert(rest@ =~= input.skip(i + 1));
        }
        sorted.insert(pos, process);
        i = i + 1;
    }
    proof {
        assert(input.take(i as int) =~= input);
        assert(sorts_by_pid(input, sorted@, order));
    }
    sorted
}

/// Sorting by pid has one outcome: two stable sorts of the same processes are the same.
pub proof fn law_pid_sort_is_unique(processes: Seq<Process>, s1: Seq<Process>, s2: Seq<Process>)
    requires
        exists|order: Seq<int>| sorts_by_pid(processes, s1, order),
        exists|order: Seq<int>| sorts_by_pid(processes, s2, order),
    ensures
        s1 == s2,
{
    let o1 = choose|order: Seq<int>| sorts_by_pid(processes, s1, order);
    let o2 = choose|order: Seq<int>| sorts_by_pid(processes, s2, order);
    law_arrangement_is_unique(processes, s1, o1, s2, o2, pid_rank());
}

} // verus!
