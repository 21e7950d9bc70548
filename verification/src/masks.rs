//! Affinity masks: bit `c` of a mask stands for core `c`.

use vstd::prelude::*;

verus! {

/// Whether `mask` holds core `core`.
pub open spec fn has_core(mask: usize, core: usize) -> bool {
    core < usize::BITS && (mask >> core) & 1usize == 1usize
}

/// The mask of the cores `lo..hi`, one bit added at a time.
pub open spec fn core_range(lo: usize, hi: usize) -> usize
    decreases hi,
{
    if hi <= lo {
        0usize
    } else {
        core_range(lo, (hi - 1) as usize) | (1usize << ((hi - 1) as usize))
    }
}

proof fn lemma_bit_of_empty(core: usize)
    requires
        core < usize::BITS,
    ensures
        !has_core(0usize, core),
{
    assert((0usize >> core) & 1usize != 1usize) by (bit_vector);
}

proof fn lemma_bit_of_union(mask: usize, added: usize, core: usize)
    requires
        added < usize::BITS,
        core < usize::BITS,
    ensures
        has_core(mask | (1usize << added), core) == (has_core(mask, core) || core == added),
{
    assert(((mask | (1usize << added)) >> core) & 1usize == 1usize <==> ((mask >> core) & 1usize
        == 1usize || core == added)) by (bit_vector)
        requires
            added < usize::BITS,
            core < usize::BITS,
    ;
}

/// The mask of `lo..hi` holds exactly the cores `lo..hi`.
pub proof fn lemma_core_range_cores(lo: usize, hi: usize)
    requires
        hi <= usize::BITS,
    ensures
        forall|core: usize| #[trigger] has_core(core_range(lo, hi), core) <==> lo <= core < hi,
    decreases hi,
{
    if hi <= lo {
        assert forall|core: usize| #[trigger] has_core(core_range(lo, hi), core) <==> lo <= core
            < hi by {
            if core < usize::BITS {
                lemma_bit_of_empty(core);
            }
        }
    } else {
        let prev = (hi - 1) as usize;
        lemma_core_range_cores(lo, prev);
        assert forall|core: usize| #[trigger] has_core(core_range(lo, hi), core) <==> lo <= core
            < hi by {
            if core < usize::BITS {
                lemma_bit_of_union(core_range(lo, prev), prev, core);
            }
        }
    }
}

/// The mask of the cores `lo..hi` (none when `hi <= lo`).
pub fn core_range_mask(lo: usize, hi: usize) -> (mask: usize)
    requires
        hi <= lo || hi <= usize::BITS,
    ensures
        mask == core_range(lo, hi),
        hi <= usize::BITS ==> forall|core: usize| #[trigger] has_core(mask, core) <==> lo <= core < hi,
{
    let mut mask: usize = 0;
    let mut c: usize = lo;
    if lo < hi {
        while c < hi
            invariant
                lo <= c <= hi <= usize::BITS,
                mask == core_range(lo, c),
            decreases hi - c,
        {
            mask = mask | (1usize << c);
            c = c + 1;
        }
    }
    proof {
        if hi <= usize::BITS {
            lemma_core_range_cores(lo, hi);
        }
    }
    mask
}

/// The cores of `mask`, in ascending order.
pub open spec fn is_core_list(mask: usize, cores: Seq<usize>) -> bool {
    &&& forall|i: int, j: int| 0 <= i < j < cores.len() ==> cores[i] < cores[j]
    &&& forall|core: usize| #[trigger] cores.contains(core) <==> has_core(mask, core)
}

/// Appending `c` to a list adds `c` and nothing else.
pub proof fn lemma_push_listing(before: Seq<usize>, c: usize)
    ensures
        forall|x: usize| #[trigger] before.push(c).contains(x) <==> (before.contains(x) || x == c),
{
    let after = before.push(c);
    assert forall|x: usize| #[trigger] after.contains(x) <==> (before.contains(x) || x == c) by {
        if x == c {
            assert(after[before.len() as int] == x);
        }
        if after.contains(x) && x != c {
            let k = choose|k: int| 0 <= k < after.len() && after[k] == x;
            assert(before[k] == x);
        }
        if before.contains(x) {
            let k = choose|k: int| 0 <= k < before.len() && before[k] == x;
            assert(after[k] == x);
        }
    }
}

/// Lists the cores that `mask` holds, lowest first.
pub fn cores_of_mask(mask: usize) -> (cores: Vec<usize>)
    ensures
        is_core_list(mask, cores@),
{
    let mut cores: Vec<usize> = Vec::new();
    let mut core: usize = 0;
    while core < usize::BITS as usize
        invariant
            core <= usize::BITS,
            forall|i: int, j: int| 0 <= i < j < cores@.len() ==> cores@[i] < cores@[j],
            forall|i: int| 0 <= i < cores@.len() ==> cores@[i] < core,
            forall|c: usize| #[trigger] cores@.contains(c) <==> (c < core && has_core(mask, c)),
        decreases usize::BITS - core,
    {
        let set = mask & (1usize << core) != 0;
        assert(set == has_core(mask, core)) by {
            assert((mask & (1usize << core) != 0usize) == ((mask >> core) & 1usize == 1usize))
                by (bit_vector)
                requires
                    core < usize::BITS,
            ;
        }
        let ghost before = cores@;
        if set {
            cores.push(core);
        }
        proof {
            lemma_push_listing(before, core);
        }
        core = core + 1;
    }
    cores
}

/// The mask `1 << core` holds core `core` alone.
pub proof fn lemma_single_core(core: usize)
    requires
        core < usize::BITS,
    ensures
        forall|c: usize| #[trigger] has_core(1usize << core, c) <==> c == core,
{
    assert forall|c: usize| #[trigger] has_core(1usize << core, c) <==> c == core by {
        if c < usize::BITS {
            assert(((1usize << core) >> c) & 1usize == 1usize <==> c == core) by (bit_vector)
                requires
                    core < usize::BITS,
                    c < usize::BITS,
            ;
        }
    }
}

proof fn lemma_range_list_prefix(lo: usize, hi: usize, cores: Seq<usize>, k: int)
    requires
        lo <= hi <= usize::BITS,
        is_core_list(core_range(lo, hi), cores),
        0 <= k <= cores.len(),
    ensures
        forall|j: int| 0 <= j < k ==> cores[j] == lo + j,
    decreases k,
{
    lemma_core_range_cores(lo, hi);
    if k > 0 {
        lemma_range_list_prefix(lo, hi, cores, k - 1);
        let j = k - 1;
        let c = cores[j];
        assert(cores.contains(c));
        assert(has_core(core_range(lo, hi), c));
        assert(lo <= c < hi);
        if c > lo + j {
            let want = (lo + j) as usize;
            assert(has_core(core_range(lo, hi), want));
            assert(cores.contains(want));
            let p = choose|p: int| 0 <= p < cores.len() && cores[p] == want;
            if p < j {
                assert(cores[p] == lo + p);
            } else if p > j {
                assert(cores[j] < cores[p]);
            }
        }
        if c < lo + j {
            if j > 0 {
                assert(cores[j - 1] == lo + j - 1);
                assert(cores[j - 1] < cores[j]);
            }
        }
    }
}

/// The cores listed for the mask of `lo..hi` are `lo, lo + 1, ..., hi - 1`.
pub proof fn law_range_mask_lists_its_range(lo: usize, hi: usize, cores: Seq<usize>)
    requires
        lo <= hi <= usize::BITS,
        is_core_list(core_range(lo, hi), cores),
    ensures
        cores == Seq::new((hi - lo) as nat, |i: int| (lo + i) as usize),
{
    lemma_core_range_cores(lo, hi);
    lemma_range_list_prefix(lo, hi, cores, cores.len() as int);
    let n = (hi - lo) as int;
    if cores.len() > n {
        assert(cores[n] == hi);
        assert(cores.contains(cores[n]));
    }
    if cores.len() < n {
        let missing = (lo + cores.len()) as usize;
        assert(has_core(core_range(lo, hi), missing));
        assert(cores.contains(missing));
        let p = choose|p: int| 0 <= p < cores.len() && cores[p] == missing;
        assert(cores[p] == lo + p);
    }
    assert(cores =~= Seq::new((hi - lo) as nat, |i: int| (lo + i) as usize));
}

} // verus!
