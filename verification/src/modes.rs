//! The scheduling modes: which processes go to which cores.
//!
//! Each mode is a plan, a list of pins in the order they are applied; the
//! caller carries them out.

use vstd::prelude::*;
use std::collections::HashSet;
use crate::masks::{core_range, core_range_mask, has_core, lemma_core_range_cores, lemma_single_core};
use crate::ranking::{is_arrangement, is_stable_ranking, rank_by_key, ranks_stably};

verus! {

broadcast use vstd::std_specs::hash::group_hash_axioms;

/// Restrict process `pid` to the cores of `mask`.
#[derive(Clone, Copy, Debug, PartialEq, Eq, Structural)]
pub struct Pin {
    pub pid: usize,
    pub mask: usize,
}

/// Every pid of `pids`, in order, pinned to `mask`.
pub open spec fn pin_all(pids: Seq<usize>, mask: usize) -> Seq<Pin> {
    pids.map_values(|pid: usize| Pin { pid, mask })
}

fn pin_each(pids: &Vec<usize>, mask: usize) -> (plan: Vec<Pin>)
    ensures
        plan@ == pin_all(pids@, mask),
{
    let mut plan: Vec<Pin> = Vec::new();
    let mut i: usize = 0;
    while i < pids.len()
        invariant
            i <= pids@.len(),
            plan@ == pin_all(pids@.take(i as int), mask),
        decreases pids@.len() - i,
    {
        plan.push(Pin { pid: pids[i], mask });
        i = i + 1;
        assert(plan@ =~= pin_all(pids@.take(i as int), mask));
    }
    assert(pids@.take(i as int) =~= pids@);
    plan
}

/// How many cores eco mode keeps: half of them, rounded up.
pub open spec fn eco_core_count(core_count: usize) -> usize {
    ((core_count + 1) / 2) as usize
}

/// Eco mode: every process goes to the first half of the cores (rounded up).
pub fn eco_plan(pids: &Vec<usize>, core_count: usize) -> (plan: Vec<Pin>)
    requires
        core_count < usize::MAX,
        (core_count + 1) / 2 <= usize::BITS,
    ensures
        plan@ == pin_all(pids@, core_range(0, eco_core_count(core_count))),
{
    let eco_cores = (core_count + 1) / 2;
    let mask = core_range_mask(0, eco_cores);
    pin_each(pids, mask)
}

/// Auto-balance: every process may run on every core.
pub fn auto_balance_plan(pids: &Vec<usize>, core_count: usize) -> (plan: Vec<Pin>)
    requires
        core_count <= usize::BITS,
    ensures
        plan@ == pin_all(pids@, core_range(0, core_count)),
{
    let mask = core_range_mask(0, core_count);
    pin_each(pids, mask)
}

/// Whether a pid is not `target`.
pub open spec fn other_than(target: usize) -> spec_fn(usize) -> bool {
    |pid: usize| pid != target
}

/// The plan of gaming mode: the target, if it runs, gets every core but core 0;
/// every other process is confined to core 0.
pub open spec fn gaming_pins(pids: Seq<usize>, target: usize, core_count: usize) -> Seq<Pin> {
    let first = if pids.contains(target) {
        seq![Pin { pid: target, mask: core_range(1, core_count) }]
    } else {
        Seq::empty()
    };
    first + pin_all(pids.filter(other_than(target)), 1usize)
}

/// Gaming mode: reserves cores `1..core_count` for `target` and moves every other
/// process to core 0.
pub fn gaming_plan(pids: &Vec<usize>, target: usize, core_count: usize) -> (plan: Vec<Pin>)
    requires
        pids@.contains(target) ==> core_count <= usize::BITS,
    ensures
        plan@ == gaming_pins(pids@, target, core_count),
{
    let mut plan: Vec<Pin> = Vec::new();
    let mut found = false;
    let mut i: usize = 0;
    while i < pids.len()
        invariant
            i <= pids@.len(),
            found == pids@.take(i as int).contains(target),
        decreases pids@.len() - i,
    {
        if pids[i] == target {
            found = true;
        }
        i = i + 1;
        proof {
            let t = pids@.take(i as int);
            assert(t.drop_last() =~= pids@.take(i - 1));
            if found && !pids@.take(i - 1).contains(target) {
                assert(t[i - 1] == target);
            }
            if t.contains(target) {
                let k = choose|k: int| 0 <= k < t.len() && t[k] == target;
                if k < i - 1 {
                    assert(pids@.take(i - 1)[k] == target);
                }
            }
        }
    }
    assert(pids@.take(i as int) =~= pids@);
    if found {
        let reserved = core_range_mask(1, core_count);
        plan.push(Pin { pid: target, mask: reserved });
    }
    let ghost first = plan@;
    let ghost keep = other_than(target);
    let mut j: usize = 0;
    while j < pids.len()
        invariant
            j <= pids@.len(),
            keep == other_than(target),
            plan@ == first + pin_all(pids@.take(j as int).filter(keep), 1usize),
        decreases pids@.len() - j,
    {
        let pid = pids[j];
        proof {
            assert(pids@.take(j + 1) =~= pids@.take(j as int).push(pid));
            pids@.take(j as int).lemma_filter_push(pid, keep);
        }
        if pid != target {
            plan.push(Pin { pid, mask: 1 });
        }
        j = j + 1;
        assert(plan@ =~= first + pin_all(pids@.take(j as int).filter(keep), 1usize));
    }
    assert(pids@.take(j as int) =~= pids@);
    plan
}

/// A `(pid, score)` entry whose pid the user marked as priority.
pub open spec fn is_marked(priority: Set<usize>) -> spec_fn((usize, u32)) -> bool {
    |entry: (usize, u32)| priority.contains(entry.0)
}

/// A `(pid, score)` entry whose pid is not marked.
pub open spec fn is_unmarked(priority: Set<usize>) -> spec_fn((usize, u32)) -> bool {
    |entry: (usize, u32)| !priority.contains(entry.0)
}

/// Some running process is marked as priority.
pub open spec fn any_marked(processes: Seq<(usize, u32)>, priority: Set<usize>) -> bool {
    exists|i: int| 0 <= i < processes.len() && priority.contains(#[trigger] processes[i].0)
}

/// Cores set aside for priority processes: the first half, rounded up, when any runs.
pub open spec fn dedicated_count(core_count: usize, any: bool) -> usize {
    if any {
        ((core_count + 1) / 2) as usize
    } else {
        0usize
    }
}

/// The cores left for the other processes.
pub open spec fn general_count(core_count: usize, any: bool) -> usize {
    (core_count - dedicated_count(core_count, any)) as usize
}

/// The cores of the priority processes.
pub open spec fn priority_mask(core_count: usize, any: bool) -> usize {
    core_range(0, dedicated_count(core_count, any))
}

/// The mask of the process ranked `k`-th among the unmarked ones: the general cores in
/// turn, one core each; the priority cores when no general core is left.
pub open spec fn general_mask(core_count: usize, any: bool, k: int) -> usize {
    let dedicated = dedicated_count(core_count, any);
    let general = general_count(core_count, any);
    if general == 0 {
        priority_mask(core_count, any)
    } else {
        1usize << ((dedicated + k % (general as int)) as usize)
    }
}

/// The unmarked processes with their scores, in enumeration order: the input of the ranking.
pub open spec fn candidates(processes: Seq<(usize, u32)>, priority: Set<usize>) -> Seq<(usize, u64)> {
    processes.filter(is_unmarked(priority)).map_values(|entry: (usize, u32)| (entry.0, entry.1 as u64))
}

/// The plan of performance mode for a given ranking of the unmarked processes: the
/// marked ones first, on the priority cores, then the ranked ones.
pub open spec fn performance_pins(
    processes: Seq<(usize, u32)>,
    priority: Set<usize>,
    core_count: usize,
    ranked: Seq<(usize, u64)>,
) -> Seq<Pin> {
    let any = any_marked(processes, priority);
    pin_all(
        processes.filter(is_marked(priority)).map_values(|entry: (usize, u32)| entry.0),
        priority_mask(core_count, any),
    ) + ranked.map(|k: int, entry: (usize, u64)| Pin { pid: entry.0, mask: general_mask(core_count, any, k) })
}

/// Whether performance mode's masks fit in a word: the count of priority cores can be
/// computed, and no core that a mask names lies past the word size.
pub open spec fn performance_fits(processes: Seq<(usize, u32)>, priority: Set<usize>, core_count: usize) -> bool {
    let any = any_marked(processes, priority);
    let ranked = candidates(processes, priority).len();
    let general = general_count(core_count, any);
    let used = if ranked < general { ranked } else { general as nat };
    &&& any ==> core_count < usize::MAX
    &&& dedicated_count(core_count, any) <= usize::BITS
    &&& dedicated_count(core_count, any) + used <= usize::BITS
}

/// Performance mode over `(pid, score)` entries in enumeration order: when some process is
/// marked, the marked ones share the first half of the cores; the others, ranked by score
/// (highest first, ties in enumeration order), take the remaining cores one each in turn.
pub fn performance_plan(
    processes: &Vec<(usize, u32)>,
    priority: &HashSet<usize>,
    core_count: usize,
) -> (plan: Vec<Pin>)
    requires
        performance_fits(processes@, priority@, core_count),
    ensures
        exists|ranked: Seq<(usize, u64)>|
            #![trigger performance_pins(processes@, priority@, core_count, ranked)]
            is_stable_ranking(candidates(processes@, priority@), ranked) && plan@
                == performance_pins(processes@, priority@, core_count, ranked),
{
    let ghost procs = processes@;
    let ghost marked = is_marked(priority@);
    let ghost unmarked = is_unmarked(priority@);
    let n = processes.len();

    let mut any = false;
    let mut i: usize = 0;
    while i < n
        invariant
            n == procs.len(),
            procs == processes@,
            i <= n,
            any == exists|j: int| 0 <= j < i && priority@.contains(#[trigger] procs[j].0),
        decreases n - i,
    {
        if priority.contains(&processes[i].0) {
            any = true;
        }
        i = i + 1;
    }
    let ghost any_spec = any_marked(procs, priority@);
    assert(any == any_spec);

    let dedicated: usize = if any { (core_count + 1) / 2 } else { 0 };
    let general: usize = core_count - dedicated;
    let pmask = core_range_mask(0, dedicated);

    let mut plan: Vec<Pin> = Vec::new();
    let mut cands: Vec<(usize, u64)> = Vec::new();
    let mut i: usize = 0;
    while i < n
        invariant
            n == procs.len(),
            procs == processes@,
            i <= n,
            marked == is_marked(priority@),
            unmarked == is_unmarked(priority@),
            pmask == priority_mask(core_count, any_spec),
            plan@ == pin_all(
                procs.take(i as int).filter(marked).map_values(|entry: (usize, u32)| entry.0),
                pmask,
            ),
            cands@ == procs.take(i as int).filter(unmarked).map_values(
                |entry: (usize, u32)| (entry.0, entry.1 as u64),
            ),
        decreases n - i,
    {
        let entry = processes[i];
        proof {
            assert(procs.take(i + 1) =~= procs.take(i as int).push(entry));
            procs.take(i as int).lemma_filter_push(entry, marked);
            procs.take(i as int).lemma_filter_push(entry, unmarked);
        }
        if priority.contains(&entry.0) {
            plan.push(Pin { pid: entry.0, mask: pmask });
        } else {
            cands.push((entry.0, entry.1 as u64));
        }
        i = i + 1;
        assert(plan@ =~= pin_all(
            procs.take(i as int).filter(marked).map_values(|entry: (usize, u32)| entry.0),
            pmask,
        ));
        assert(cands@ =~= procs.take(i as int).filter(unmarked).map_values(
            |entry: (usize, u32)| (entry.0, entry.1 as u64),
        ));
    }
    assert(procs.take(n as int) =~= procs);
    let ghost head = plan@;

    let ranked = rank_by_key(&cands);
    assert(ranked@.len() == cands@.len());
    assert(cands@.len() == candidates(procs, priority@).len());
    let mut k: usize = 0;
    while k < ranked.len()
        invariant
            k <= ranked@.len(),
            ranked@.len() == candidates(procs, priority@).len(),
            procs == processes@,
            any_spec == any_marked(procs, priority@),
            performance_fits(procs, priority@, core_count),
            dedicated == dedicated_count(core_count, any_spec),
            general == general_count(core_count, any_spec),
            pmask == priority_mask(core_count, any_spec),
            plan@ == head + ranked@.take(k as int).map(
                |k: int, entry: (usize, u64)| Pin { pid: entry.0, mask: general_mask(core_count, any_spec, k) },
            ),
        decreases ranked@.len() - k,
    {
        let mask = if general == 0 {
            pmask
        } else {
            assert(k % general < general && k % general <= k) by (nonlinear_arith)
                requires
                    general > 0,
            ;
            1usize << (dedicated + k % general)
        };
        plan.push(Pin { pid: ranked[k].0, mask });
        k = k + 1;
        assert(plan@ =~= head + ranked@.take(k as int).map(
            |k: int, entry: (usize, u64)| Pin { pid: entry.0, mask: general_mask(core_count, any_spec, k) },
        ));
    }
    assert(ranked@.take(k as int) =~= ranked@);
    assert(plan@ == performance_pins(processes@, priority@, core_count, ranked@));
    plan
}

/// Eco mode keeps a process on core `c` exactly when `c` lies in the first half of the
/// cores, rounded up.
pub proof fn law_eco_uses_first_half(core_count: usize)
    requires
        core_count < usize::MAX,
        (core_count + 1) / 2 <= usize::BITS,
    ensures
        forall|c: usize| #[trigger]
            has_core(core_range(0, eco_core_count(core_count)), c) <==> 2 * c < core_count,
{
    lemma_core_range_cores(0, eco_core_count(core_count));
}

/// Auto-balance lets every process run on every core and on nothing else.
pub proof fn law_auto_balance_uses_all_cores(core_count: usize)
    requires
        core_count <= usize::BITS,
    ensures
        forall|c: usize| #[trigger] has_core(core_range(0, core_count), c) <==> c < core_count,
{
    lemma_core_range_cores(0, core_count);
}

/// In gaming mode the target never shares a core with another process: it holds cores
/// `1..core_count`, the others core 0 alone.
pub proof fn law_gaming_separates_target(core_count: usize)
    ensures
        core_count <= usize::BITS ==> forall|c: usize| #[trigger] has_core(core_range(1, core_count), c)
            <==> 1 <= c < core_count,
        forall|c: usize| #[trigger] has_core(1usize, c) <==> c == 0,
{
    if core_count <= usize::BITS {
        lemma_core_range_cores(1, core_count);
    }
    lemma_single_core(0);
    assert(1usize << 0usize == 1usize) by (bit_vector);
}

/// Performance mode gives the marked processes exactly the first half of the cores,
/// rounded up, when one of them runs, and no core otherwise.
pub proof fn law_performance_priority_cores(core_count: usize, any: bool)
    requires
        any ==> core_count < usize::MAX,
        dedicated_count(core_count, any) <= usize::BITS,
    ensures
        forall|c: usize| #[trigger] has_core(priority_mask(core_count, any), c) <==> (any && 2 * c
            < core_count),
{
    lemma_core_range_cores(0, dedicated_count(core_count, any));
}

/// While general cores remain, the `k`-th ranked unmarked process runs on one general core,
/// `dedicated + k % general`, which no marked process uses; so the ranked processes take
/// the general cores in turn.
pub proof fn law_performance_general_core(core_count: usize, any: bool, k: int)
    requires
        any ==> core_count < usize::MAX,
        general_count(core_count, any) > 0,
        k >= 0,
        dedicated_count(core_count, any) + k % (general_count(core_count, any) as int) < usize::BITS,
    ensures
        ({
            let core = (dedicated_count(core_count, any) + k % (general_count(core_count, any) as int)) as usize;
            &&& dedicated_count(core_count, any) <= core < core_count
            &&& forall|c: usize| #[trigger] has_core(general_mask(core_count, any, k), c) <==> c == core
            &&& !has_core(priority_mask(core_count, any), core)
        }),
{
    let core = (dedicated_count(core_count, any) + k % (general_count(core_count, any) as int)) as usize;
    lemma_single_core(core);
    lemma_core_range_cores(0, dedicated_count(core_count, any));
    assert(k % (general_count(core_count, any) as int) < general_count(core_count, any)) by (nonlinear_arith)
        requires
            general_count(core_count, any) > 0,
    ;
}

/// The positions in `s` of the entries that `pred` accepts, in order.
pub open spec fn positions(s: Seq<(usize, u32)>, pred: spec_fn((usize, u32)) -> bool) -> Seq<int>
    decreases s.len(),
{
    if s.len() == 0 {
        Seq::empty()
    } else {
        let before = positions(s.drop_last(), pred);
        if pred(s.last()) {
            before.push(s.len() - 1)
        } else {
            before
        }
    }
}

proof fn lemma_positions(s: Seq<(usize, u32)>, pred: spec_fn((usize, u32)) -> bool)
    ensures
        positions(s, pred).len() == s.filter(pred).len(),
        forall|k: int|
            0 <= k < positions(s, pred).len() ==> {
                &&& 0 <= #[trigger] positions(s, pred)[k] < s.len()
                &&& s.filter(pred)[k] == s[positions(s, pred)[k]]
                &&& pred(s[positions(s, pred)[k]])
            },
        forall|k: int, l: int|
            0 <= k < l < positions(s, pred).len() ==> positions(s, pred)[k] < positions(s, pred)[l],
    decreases s.len(),
{
    if s.len() > 0 {
        let init = s.drop_last();
        lemma_positions(init, pred);
        assert(init.push(s.last()) =~= s);
        init.lemma_filter_push(s.last(), pred);
        let before = positions(init, pred);
        assert forall|k: int| 0 <= k < before.len() implies s[before[k]] == init[before[k]] by {}
    } else {
        assert(s.filter(pred) =~= Seq::<(usize, u32)>::empty()) by {
            reveal(Seq::filter);
        }
    }
}

proof fn lemma_marked_split(s: Seq<(usize, u32)>, priority: Set<usize>)
    ensures
        s.filter(is_marked(priority)).len() + s.filter(is_unmarked(priority)).len() == s.len(),
    decreases s.len(),
{
    if s.len() > 0 {
        let init = s.drop_last();
        lemma_marked_split(init, priority);
        assert(init.push(s.last()) =~= s);
        init.lemma_filter_push(s.last(), is_marked(priority));
        init.lemma_filter_push(s.last(), is_unmarked(priority));
    } else {
        reveal(Seq::filter);
    }
}

/// Performance mode pins every process exactly once: its plan is the processes rearranged.
pub proof fn law_performance_pins_every_process_once(
    processes: Seq<(usize, u32)>,
    priority: Set<usize>,
    core_count: usize,
    ranked: Seq<(usize, u64)>,
)
    requires
        is_stable_ranking(candidates(processes, priority), ranked),
    ensures
        performance_pins(processes, priority, core_count, ranked).len() == processes.len(),
        exists|q: Seq<int>|
            is_arrangement(processes.len(), q) && forall|k: int|
                0 <= k < processes.len() ==> #[trigger] performance_pins(
                    processes,
                    priority,
                    core_count,
                    ranked,
                )[k].pid == processes[q[k]].0,
{
    let marked = is_marked(priority);
    let unmarked = is_unmarked(priority);
    let order = choose|order: Seq<int>| ranks_stably(candidates(processes, priority), ranked, order);
    lemma_positions(processes, marked);
    lemma_positions(processes, unmarked);
    lemma_marked_split(processes, priority);
    let pm = positions(processes, marked);
    let pu = positions(processes, unmarked);
    let second = Seq::new(ranked.len(), |k: int| pu[order[k]]);
    let q = pm + second;
    let plan = performance_pins(processes, priority, core_count, ranked);
    let m = pm.len() as int;
    assert(q.len() == processes.len());
    assert forall|k: int| 0 <= k < processes.len() implies 0 <= #[trigger] q[k] < processes.len() by {
        if k >= m {
            assert(0 <= order[k - m] < pu.len());
        }
    }
    assert forall|k: int, l: int| 0 <= k < l < processes.len() implies q[k] != q[l] by {
        if l < m {
        } else if k >= m {
            let a = order[k - m];
            let b = order[l - m];
            assert(a != b);
            if a < b {
                assert(pu[a] < pu[b]);
            } else {
                assert(pu[b] < pu[a]);
            }
        } else {
            let b = order[l - m];
            assert(marked(processes[pm[k]]));
            assert(unmarked(processes[pu[b]]));
        }
    }
    assert forall|k: int| 0 <= k < processes.len() implies #[trigger] plan[k].pid
        == processes[q[k]].0 by {
        if k < m {
            assert(plan[k].pid == processes.filter(marked)[k].0);
        } else {
            let j = k - m;
            assert(plan[k].pid == ranked[j].0);
            assert(ranked[j] == candidates(processes, priority)[order[j]]);
            assert(candidates(processes, priority)[order[j]].0 == processes.filter(unmarked)[order[j]].0);
        }
    }
    assert(is_arrangement(processes.len(), q));
}

/// Gaming mode, over every input: when the target runs it comes first and holds exactly
/// cores `1..core_count`; every other pin is a process other than the target, confined to
/// core 0 alone; and each other process is pinned once.
pub proof fn law_gaming_plan_cores(pids: Seq<usize>, target: usize, core_count: usize)
    requires
        pids.contains(target) ==> core_count <= usize::BITS,
    ensures
        ({
            let plan = gaming_pins(pids, target, core_count);
            let first: int = if pids.contains(target) { 1 } else { 0 };
            &&& plan.len() == first + pids.filter(other_than(target)).len()
            &&& pids.contains(target) ==> plan[0].pid == target && forall|c: usize| #[trigger]
                has_core(plan[0].mask, c) <==> 1 <= c < core_count
            &&& forall|k: int| first <= k < plan.len() ==> #[trigger] plan[k].pid != target
                && plan[k].mask == 1usize && plan[k].pid == pids.filter(other_than(target))[k - first]
        }),
{
    let plan = gaming_pins(pids, target, core_count);
    let first: int = if pids.contains(target) { 1 } else { 0 };
    let others = pids.filter(other_than(target));
    if pids.contains(target) {
        lemma_core_range_cores(1, core_count);
        assert(plan[0].mask == core_range(1, core_count));
    }
    assert forall|k: int| first <= k < plan.len() implies #[trigger] plan[k].pid != target
        && plan[k].mask == 1usize && plan[k].pid == others[k - first] by {
        assert(plan[k] == pin_all(others, 1usize)[k - first]);
        pids.lemma_filter_pred(other_than(target), k - first);
    }
}

/// Performance mode, over every input where its masks fit: with `d` the cores set aside
/// for marked processes (half, rounded up, when one runs; else none) and `g` the rest,
/// the first pins are the marked processes, each on exactly cores `0..d`; then the ranked
/// processes follow in rank order, the `k`-th on exactly core `d + k % g` (on cores `0..d`
/// when `g` is 0), so consecutive ranked processes land on different cores whenever more
/// than one general core exists.
pub proof fn law_performance_plan_cores(
    processes: Seq<(usize, u32)>,
    priority: Set<usize>,
    core_count: usize,
    ranked: Seq<(usize, u64)>,
)
    requires
        is_stable_ranking(candidates(processes, priority), ranked),
        performance_fits(processes, priority, core_count),
    ensures
        ({
            let plan = performance_pins(processes, priority, core_count, ranked);
            let any = any_marked(processes, priority);
            let d: int = if any { (core_count + 1) / 2 } else { 0 };
            let g: int = core_count - d;
            let m = plan.len() - ranked.len();
            &&& m == processes.filter(is_marked(priority)).len()
            &&& forall|k: int| 0 <= k < m ==> priority.contains(#[trigger] plan[k].pid)
            &&& forall|k: int, c: usize| 0 <= k < m ==> (#[trigger] has_core(plan[k].mask, c) <==> c < d)
            &&& forall|k: int| 0 <= k < ranked.len() ==> #[trigger] plan[m + k].pid == ranked[k].0
            &&& forall|k: int, c: usize| 0 <= k < ranked.len() && g > 0 ==> (#[trigger] has_core(
                plan[m + k].mask,
                c,
            ) <==> c == d + k % g)
            &&& forall|k: int, c: usize| 0 <= k < ranked.len() && g == 0 ==> (#[trigger] has_core(
                plan[m + k].mask,
                c,
            ) <==> c < d)
            &&& forall|k: int| 0 <= k < ranked.len() - 1 && g > 1 ==> #[trigger] plan[m + k].mask
                != plan[m + k + 1].mask
        }),
{
    let plan = performance_pins(processes, priority, core_count, ranked);
    let any = any_marked(processes, priority);
    let d: int = if any { (core_count + 1) / 2 } else { 0 };
    let g: int = core_count - d;
    let marked_entries = processes.filter(is_marked(priority));
    let m = marked_entries.len() as int;
    let order = choose|order: Seq<int>| ranks_stably(candidates(processes, priority), ranked, order);
    assert(ranked.len() == candidates(processes, priority).len());
    assert(dedicated_count(core_count, any) == d);
    assert(general_count(core_count, any) == g);
    lemma_core_range_cores(0, dedicated_count(core_count, any));
    assert(plan.len() == m + ranked.len());
    assert forall|k: int| 0 <= k < m implies priority.contains(#[trigger] plan[k].pid) by {
        assert(plan[k].pid == marked_entries[k].0);
        processes.lemma_filter_pred(is_marked(priority), k);
    }
    assert forall|k: int, c: usize| 0 <= k < m implies (#[trigger] has_core(plan[k].mask, c) <==> c < d) by {
        assert(plan[k].mask == priority_mask(core_count, any));
    }
    assert forall|k: int| 0 <= k < ranked.len() implies #[trigger] plan[m + k].pid == ranked[k].0 by {
        assert(plan[m + k].pid == ranked[k].0);
    }
    assert forall|k: int, c: usize| 0 <= k < ranked.len() && g > 0 implies (#[trigger] has_core(
        plan[m + k].mask,
        c,
    ) <==> c == d + k % g) by {
        assert(k % g < g && k % g <= k) by (nonlinear_arith)
            requires
                g > 0,
                k >= 0,
        ;
        let core = (d + k % g) as usize;
        assert(plan[m + k].mask == general_mask(core_count, any, k));
        assert(plan[m + k].mask == 1usize << core);
        lemma_single_core(core);
    }
    assert forall|k: int, c: usize| 0 <= k < ranked.len() && g == 0 implies (#[trigger] has_core(
        plan[m + k].mask,
        c,
    ) <==> c < d) by {
        assert(plan[m + k].mask == priority_mask(core_count, any));
    }
    assert forall|k: int| 0 <= k < ranked.len() - 1 && g > 1 implies #[trigger] plan[m + k].mask
        != plan[m + k + 1].mask by {
        assert(k % g != (k + 1) % g) by (nonlinear_arith)
            requires
                g > 1,
                k >= 0,
        ;
        assert(k % g < g && k % g <= k && (k + 1) % g < g && (k + 1) % g <= k + 1) by (nonlinear_arith)
            requires
                g > 0,
                k >= 0,
        ;
        let c1 = (d + k % g) as usize;
        let c2 = (d + (k + 1) % g) as usize;
        assert(plan[m + k].mask == 1usize << c1);
        assert(plan[m + k + 1].mask == 1usize << c2);
        lemma_single_core(c1);
        lemma_single_core(c2);
        assert(has_core(plan[m + k].mask, c1));
        assert(!has_core(plan[m + k + 1].mask, c1));
    }
}

} // verus!
