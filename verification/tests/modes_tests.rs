use std::collections::HashSet;

use dispatch::modes::{auto_balance_plan, eco_plan, gaming_plan, performance_plan, Pin};
use dispatch::ranking::rank_by_key;

fn pin(pid: usize, mask: usize) -> Pin {
    Pin { pid, mask }
}

#[test]
fn eco_mode_uses_half_the_cores_rounded_up() {
    assert_eq!(eco_plan(&vec![10, 20], 4), vec![pin(10, 0b11), pin(20, 0b11)]);
    assert_eq!(eco_plan(&vec![10], 5), vec![pin(10, 0b111)]);
    assert_eq!(eco_plan(&vec![10], 1), vec![pin(10, 0b1)]);
    assert_eq!(eco_plan(&vec![], 8), Vec::<Pin>::new());
}

#[test]
fn auto_balance_uses_every_core() {
    assert_eq!(auto_balance_plan(&vec![3, 1], 6), vec![pin(3, 0b111111), pin(1, 0b111111)]);
}

#[test]
fn gaming_mode_reserves_all_but_core_zero_for_the_target() {
    let plan = gaming_plan(&vec![5, 9, 7], 9, 4);
    assert_eq!(plan, vec![pin(9, 0b1110), pin(5, 1), pin(7, 1)]);
}

#[test]
fn gaming_mode_without_the_target_moves_everyone_to_core_zero() {
    let plan = gaming_plan(&vec![5, 7], 9, 4);
    assert_eq!(plan, vec![pin(5, 1), pin(7, 1)]);
}

#[test]
fn gaming_mode_on_one_core_gives_the_target_no_core() {
    let plan = gaming_plan(&vec![9, 5], 9, 1);
    assert_eq!(plan, vec![pin(9, 0), pin(5, 1)]);
}

#[test]
fn performance_mode_dedicates_half_to_priority_and_spreads_the_rest() {
    let processes = vec![(1, 50), (2, 900), (3, 10), (4, 300), (5, 300)];
    let priority: HashSet<usize> = [2].into_iter().collect();
    let plan = performance_plan(&processes, &priority, 4);
    // Cores 0-1 for the marked pid 2; cores 2 and 3 in turn for the others,
    // highest score first, equal scores in their original order.
    assert_eq!(
        plan,
        vec![pin(2, 0b0011), pin(4, 0b0100), pin(5, 0b1000), pin(1, 0b0100), pin(3, 0b1000)]
    );
}

#[test]
fn performance_mode_without_marked_processes_uses_every_core() {
    let processes = vec![(1, 5), (2, 7), (3, 6)];
    let priority: HashSet<usize> = [99].into_iter().collect();
    let plan = performance_plan(&processes, &priority, 2);
    assert_eq!(plan, vec![pin(2, 0b01), pin(3, 0b10), pin(1, 0b01)]);
}

#[test]
fn performance_mode_on_one_core_shares_it() {
    let processes = vec![(1, 5), (2, 7)];
    let priority: HashSet<usize> = [1].into_iter().collect();
    let plan = performance_plan(&processes, &priority, 1);
    assert_eq!(plan, vec![pin(1, 0b1), pin(2, 0b1)]);
}

#[test]
fn rank_by_key_is_a_stable_descending_sort() {
    let ranked = rank_by_key(&vec![(0, 5), (1, 9), (2, 5), (3, 1), (4, 9)]);
    assert_eq!(ranked, vec![(1, 9), (4, 9), (0, 5), (2, 5), (3, 1)]);
}

#[test]
fn performance_mode_pins_every_process_once() {
    let processes = vec![(8, 1), (3, 70), (5, 70), (1, 0), (9, 12), (2, 5)];
    let priority: HashSet<usize> = [5, 1, 77].into_iter().collect();
    let plan = performance_plan(&processes, &priority, 6);
    let mut pinned: Vec<usize> = plan.iter().map(|p| p.pid).collect();
    pinned.sort();
    assert_eq!(pinned, vec![1, 2, 3, 5, 8, 9]);
    for p in &plan {
        if priority.contains(&p.pid) {
            assert_eq!(p.mask, 0b000111);
        } else {
            assert_eq!(p.mask.count_ones(), 1);
            assert_eq!(p.mask & 0b000111, 0);
        }
    }
}

#[test]
fn gaming_mode_without_the_target_runs_on_any_core_count() {
    let plan = gaming_plan(&vec![5, 7], 9, 1000);
    assert_eq!(plan, vec![pin(5, 1), pin(7, 1)]);
}

#[test]
fn performance_mode_runs_on_many_cores_while_the_masks_fit() {
    let processes = vec![(1, 5), (2, 7)];
    let priority: HashSet<usize> = HashSet::new();
    let plan = performance_plan(&processes, &priority, 500);
    assert_eq!(plan, vec![pin(2, 0b01), pin(1, 0b10)]);
}
