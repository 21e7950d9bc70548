use dispatch::affinity::{cores_of_cpu_set, cpu_set_from_mask};
use dispatch::masks::{core_range_mask, cores_of_mask};

#[test]
fn core_range_mask_sets_the_range() {
    assert_eq!(core_range_mask(0, 4), 0b1111);
    assert_eq!(core_range_mask(1, 4), 0b1110);
    assert_eq!(core_range_mask(2, 3), 0b100);
    assert_eq!(core_range_mask(0, 0), 0);
    assert_eq!(core_range_mask(5, 2), 0);
    assert_eq!(core_range_mask(0, usize::BITS as usize), usize::MAX);
}

#[test]
fn cores_of_mask_lists_the_bits() {
    assert_eq!(cores_of_mask(0b1011), vec![0, 1, 3]);
    assert_eq!(cores_of_mask(0), Vec::<usize>::new());
    assert_eq!(cores_of_mask(1 << (usize::BITS - 1)), vec![usize::BITS as usize - 1]);
}

#[test]
fn cores_of_a_range_mask_are_the_range() {
    assert_eq!(cores_of_mask(core_range_mask(2, 6)), vec![2, 3, 4, 5]);
}

#[test]
fn cpu_set_from_mask_holds_the_cores_of_the_mask() {
    let set = cpu_set_from_mask(0b10110);
    assert!(!set.is_set(0).unwrap());
    assert!(set.is_set(1).unwrap());
    assert!(set.is_set(2).unwrap());
    assert!(!set.is_set(3).unwrap());
    assert!(set.is_set(4).unwrap());
}

#[test]
fn cores_of_cpu_set_reads_back_the_mask() {
    let set = cpu_set_from_mask(0b1001_0001);
    assert_eq!(cores_of_cpu_set(&set), vec![0, 4, 7]);
    let empty = cpu_set_from_mask(0);
    assert_eq!(cores_of_cpu_set(&empty), Vec::<usize>::new());
}

#[test]
fn cores_of_cpu_set_sees_cores_beyond_a_mask() {
    let mut set = nix::sched::CpuSet::new();
    set.set(100).unwrap();
    set.set(3).unwrap();
    assert_eq!(cores_of_cpu_set(&set), vec![3, 100]);
}

#[test]
fn cpu_set_from_mask_holds_exactly_cores_zero_and_two() {
    let set = cpu_set_from_mask(0b101);
    let cores: Vec<usize> = (0..nix::sched::CpuSet::count()).filter(|c| set.is_set(*c).unwrap()).collect();
    assert_eq!(cores, vec![0, 2]);
}

#[test]
fn cpu_set_from_the_full_mask_holds_every_word_core() {
    let set = cpu_set_from_mask(usize::MAX);
    assert_eq!(cores_of_cpu_set(&set), (0..usize::BITS as usize).collect::<Vec<usize>>());
}
