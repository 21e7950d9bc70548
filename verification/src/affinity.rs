//! CPU sets as the kernel takes them: building one from a mask, and reading
//! the cores back out of one.

use vstd::prelude::*;
use nix::sched::CpuSet;
use crate::masks::{has_core, is_core_list, lemma_push_listing};

verus! {

/// `nix::sched::CpuSet`: the set of cores that the kernel's affinity calls take.
#[verifier::external_type_specification]
#[verifier::external_body]
pub struct ExCpuSet(CpuSet);

/// The cores that a CPU set holds.
pub uninterp spec fn cpu_set_cores(set: CpuSet) -> Set<usize>;

/// How many cores a CPU set can describe (`CpuSet::count`).
pub uninterp spec fn cpu_set_capacity(set: CpuSet) -> usize;

/// `CpuSet::new`: an empty set.
#[verifier::external_body]
fn cpu_set_new() -> (set: CpuSet)
    ensures
        cpu_set_cores(set) == Set::<usize>::empty(),
{
    CpuSet::new()
}

/// `CpuSet::count`: the capacity of every CPU set, `8 * size_of::<cpu_set_t>()`. On every
/// target where nix offers `CpuSet` that is at least one machine word of bits (1024 on
/// Linux, 32 on 32-bit Android, 256 or more on the BSDs); the exact number is not stated.
#[verifier::external_body]
fn cpu_set_count() -> (count: usize)
    ensures
        forall|set: CpuSet| #[trigger] cpu_set_capacity(set) == count,
        count >= usize::BITS,
{
    CpuSet::count()
}

/// `CpuSet::set`: adds `core` when it is below the capacity (and reports success);
/// otherwise leaves the set as it was and reports the error.
#[verifier::external_body]
fn cpu_set_add(set: &mut CpuSet, core: usize) -> (added: bool)
    ensures
        added == (core < cpu_set_capacity(*old(set))),
        added ==> cpu_set_cores(*final(set)) == cpu_set_cores(*old(set)).insert(core),
        !added ==> cpu_set_cores(*final(set)) == cpu_set_cores(*old(set)),
        cpu_set_capacity(*final(set)) == cpu_set_capacity(*old(set)),
{
    set.set(core).is_ok()
}

/// `CpuSet::is_set`: whether the set holds `core`, or `None` (the error) when `core` is not
/// below the capacity.
#[verifier::external_body]
fn cpu_set_holds(set: &CpuSet, core: usize) -> (held: Option<bool>)
    ensures
        held == (if core < cpu_set_capacity(*set) {
            Some(cpu_set_cores(*set).contains(core))
        } else {
            None
        }),
{
    set.is_set(core).ok()
}

/// `set` can describe every core a mask can name, and holds exactly the cores of `mask`.
pub open spec fn holds_mask(set: CpuSet, mask: usize) -> bool {
    &&& cpu_set_capacity(set) >= usize::BITS
    &&& forall|core: usize| #[trigger] cpu_set_cores(set).contains(core) <==> has_core(mask, core)
}

/// `cores` lists the cores of `set`, lowest first.
pub open spec fn lists_cores(set: CpuSet, cores: Seq<usize>) -> bool {
    &&& forall|i: int, j: int| 0 <= i < j < cores.len() ==> cores[i] < cores[j]
    &&& forall|core: usize| #[trigger]
        cores.contains(core) <==> (cpu_set_cores(set).contains(core) && core < cpu_set_capacity(set))
}

/// Builds the CPU set of the cores of `mask`.
pub fn cpu_set_from_mask(mask: usize) -> (set: CpuSet)
    ensures
        holds_mask(set, mask),
{
    let _ = cpu_set_count();
    let mut set = cpu_set_new();
    let mut core: usize = 0;
    while core < usize::BITS as usize
        invariant
            core <= usize::BITS,
            cpu_set_capacity(set) >= usize::BITS,
            forall|c: usize| #[trigger]
                cpu_set_cores(set).contains(c) <==> (c < core && has_core(mask, c)),
        decreases usize::BITS - core,
    {
        let ghost before = set;
        let held = mask & (1usize << core) != 0;
        assert(held == has_core(mask, core)) by {
            assert((mask & (1usize << core) != 0usize) == ((mask >> core) & 1usize == 1usize))
                by (bit_vector)
                requires
                    core < usize::BITS,
            ;
        }
        if held {
            let _ = cpu_set_add(&mut set, core);
        }
        assert(cpu_set_capacity(set) == cpu_set_capacity(before));
        core = core + 1;
    }
    set
}

/// The cores that `set` holds, lowest first.
pub fn cores_of_cpu_set(set: &CpuSet) -> (cores: Vec<usize>)
    ensures
        lists_cores(*set, cores@),
        cpu_set_capacity(*set) >= usize::BITS,
{
    let count = cpu_set_count();
    let mut cores: Vec<usize> = Vec::new();
    let mut core: usize = 0;
    while core < count
        invariant
            core <= count,
            count == cpu_set_capacity(*set),
            forall|i: int, j: int| 0 <= i < j < cores@.len() ==> cores@[i] < cores@[j],
            forall|i: int| 0 <= i < cores@.len() ==> cores@[i] < core,
            forall|c: usize| #[trigger] cores@.contains(c) <==> (c < core && cpu_set_cores(*set).contains(c)),
        decreases count - core,
    {
        let held = match cpu_set_holds(set, core) {
            Some(b) => b,
            None => false,
        };
        let ghost before = cores@;
        if held {
            cores.push(core);
        }
        proof {
            lemma_push_listing(before, core);
        }
        core = core + 1;
    }
    cores
}

/// Reading back the CPU set built from a mask lists the cores of the mask, lowest first.
pub proof fn law_cpu_set_round_trip(mask: usize, set: CpuSet, cores: Seq<usize>)
    requires
        holds_mask(set, mask),
        lists_cores(set, cores),
    ensures
        is_core_list(mask, cores),
{
}

} // verus!
