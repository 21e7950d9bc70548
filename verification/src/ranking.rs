//! Stable sorting by a rank: ranking entries by a key, highest first, keeping
//! the order of entries of equal rank.

use vstd::prelude::*;
use vstd::set_lib::{lemma_int_range, lemma_subset_equality, set_int_range};

verus! {

/// `order` lists each position of a sequence of length `n` exactly once.
pub open spec fn is_arrangement(n: nat, order: Seq<int>) -> bool {
    &&& order.len() == n
    &&& forall|k: int| 0 <= k < n ==> 0 <= #[trigger] order[k] < n
    &&& forall|k: int, l: int| 0 <= k < l < n ==> order[k] != order[l]
}

/// `out` is `input` rearranged by `order` (item `order[k]` goes to place `k`), with ranks
/// that never rise and items of equal rank in their input order.
pub open spec fn arranges<T>(input: Seq<T>, out: Seq<T>, order: Seq<int>, rank: spec_fn(T) -> int) -> bool {
    &&& out.len() == input.len()
    &&& is_arrangement(input.len(), order)
    &&& forall|k: int| 0 <= k < out.len() ==> #[trigger] out[k] == input[order[k]]
    &&& forall|k: int, l: int|
        #![trigger out[k], out[l]]
        0 <= k < l < out.len() ==> rank(out[k]) > rank(out[l]) || (rank(out[k]) == rank(out[l])
            && order[k] < order[l])
}

/// Once `pos` is past every item ranked at least as high as `x` (and stops at one ranked
/// lower, or at the end), every item from `pos` on is ranked lower than `x`.
pub proof fn lemma_rest_ranked_lower<T>(
    input: Seq<T>,
    out: Seq<T>,
    order: Seq<int>,
    rank: spec_fn(T) -> int,
    pos: int,
    x: T,
)
    requires
        arranges(input, out, order, rank),
        0 <= pos <= out.len(),
        pos < out.len() ==> rank(out[pos]) < rank(x),
    ensures
        forall|k: int| pos <= k < out.len() ==> rank(#[trigger] out[k]) < rank(x),
{
    assert forall|k: int| pos <= k < out.len() implies rank(#[trigger] out[k]) < rank(x) by {
        if k > pos {
            assert(rank(out[pos]) > rank(out[k]) || rank(out[pos]) == rank(out[k]));
        }
    }
}

/// Inserting the next input item after every item ranked at least as high, and before
/// every item ranked lower, keeps the arrangement stable.
pub proof fn lemma_insert_step<T>(
    input: Seq<T>,
    i: int,
    out: Seq<T>,
    order: Seq<int>,
    rank: spec_fn(T) -> int,
    pos: int,
)
    requires
        0 <= i < input.len(),
        arranges(input.take(i), out, order, rank),
        0 <= pos <= out.len(),
        forall|k: int| 0 <= k < pos ==> rank(#[trigger] out[k]) >= rank(input[i]),
        forall|k: int| pos <= k < out.len() ==> rank(#[trigger] out[k]) < rank(input[i]),
    ensures
        arranges(input.take(i + 1), out.insert(pos, input[i]), order.insert(pos, i), rank),
{
    let x = input[i];
    let prefix = input.take(i);
    let next = input.take(i + 1);
    let new_out = out.insert(pos, x);
    let new_order = order.insert(pos, i);
    assert(next =~= prefix.push(x));
    assert forall|k: int| 0 <= k < new_out.len() implies #[trigger] new_out[k] == next[new_order[k]] by {
        if k < pos {
            assert(new_out[k] == out[k]);
            assert(new_order[k] == order[k]);
        } else if k > pos {
            assert(new_out[k] == out[k - 1]);
            assert(new_order[k] == order[k - 1]);
        }
    }
    assert forall|k: int, l: int|
        #![trigger new_out[k], new_out[l]]
        0 <= k < l < new_out.len() implies rank(new_out[k]) > rank(new_out[l]) || (rank(new_out[k])
            == rank(new_out[l]) && new_order[k] < new_order[l]) by {
        let ok = if k < pos { k } else { k - 1 };
        let ol = if l < pos { l } else { l - 1 };
        if k != pos && l != pos {
            assert(new_out[k] == out[ok] && new_out[l] == out[ol]);
            assert(rank(out[ok]) > rank(out[ol]) || (rank(out[ok]) == rank(out[ol]) && order[ok]
                < order[ol]));
        } else if k == pos {
            assert(new_out[l] == out[ol]);
            assert(rank(out[ol]) < rank(x));
        } else {
            assert(new_out[k] == out[ok]);
            assert(rank(out[ok]) >= rank(x));
            assert(order[ok] < i);
        }
    }
    assert forall|k: int| 0 <= k < i + 1 implies 0 <= #[trigger] new_order[k] < i + 1 by {
        if k < pos {
            assert(new_order[k] == order[k]);
        } else if k > pos {
            assert(new_order[k] == order[k - 1]);
        }
    }
    assert forall|k: int, l: int| 0 <= k < l < i + 1 implies new_order[k] != new_order[l] by {
        let ok = if k < pos { k } else { k - 1 };
        let ol = if l < pos { l } else { l - 1 };
        if k != pos && l != pos {
            assert(new_order[k] == order[ok]);
            assert(new_order[l] == order[ol]);
        } else if k == pos {
            assert(new_order[l] == order[ol]);
        } else {
            assert(new_order[k] == order[ok]);
        }
    }
}

/// An arrangement of `n` positions names each of them.
pub proof fn lemma_arrangement_covers(n: nat, order: Seq<int>)
    requires
        is_arrangement(n, order),
    ensures
        forall|v: int| 0 <= v < n ==> #[trigger] order.contains(v),
{
    assert(order.no_duplicates()) by {
        assert forall|i: int, j: int| 0 <= i < order.len() && 0 <= j < order.len() && i != j implies order[i]
            != order[j] by {
            if i < j {
            } else {
                assert(order[j] != order[i]);
            }
        }
    }
    order.unique_seq_to_set();
    lemma_int_range(0, n as int);
    assert(order.to_set().subset_of(set_int_range(0, n as int)));
    lemma_subset_equality(order.to_set(), set_int_range(0, n as int));
    assert forall|v: int| 0 <= v < n implies #[trigger] order.contains(v) by {
        assert(set_int_range(0, n as int).contains(v));
        assert(order.to_set().contains(v));
    }
}

proof fn lemma_orders_agree_below<T>(
    input: Seq<T>,
    r1: Seq<T>,
    o1: Seq<int>,
    r2: Seq<T>,
    o2: Seq<int>,
    rank: spec_fn(T) -> int,
    k: int,
)
    requires
        arranges(input, r1, o1, rank),
        arranges(input, r2, o2, rank),
        0 <= k <= input.len(),
    ensures
        forall|j: int| 0 <= j < k ==> o1[j] == o2[j],
    decreases k,
{
    if k > 0 {
        lemma_orders_agree_below(input, r1, o1, r2, o2, rank, k - 1);
        let n = input.len();
        let c = k - 1;
        let a = o1[c];
        let b = o2[c];
        if a != b {
            lemma_arrangement_covers(n, o1);
            lemma_arrangement_covers(n, o2);
            assert(o1.contains(b));
            assert(o2.contains(a));
            let p = choose|p: int| 0 <= p < n && o1[p] == b;
            let q = choose|q: int| 0 <= q < n && o2[q] == a;
            if p < c {
                assert(o2[p] == b);
            }
            if q < c {
                assert(o1[q] == a);
            }
            assert(p > c && q > c);
            assert(r1[c] == input[a] && r1[p] == input[b]);
            assert(r2[c] == input[b] && r2[q] == input[a]);
            assert(rank(r1[c]) > rank(r1[p]) || (rank(r1[c]) == rank(r1[p]) && o1[c] < o1[p]));
            assert(rank(r2[c]) > rank(r2[q]) || (rank(r2[c]) == rank(r2[q]) && o2[c] < o2[q]));
        }
    }
}

/// A stable arrangement by rank is unique: two of them, of the same input, are the same.
pub proof fn law_arrangement_is_unique<T>(
    input: Seq<T>,
    r1: Seq<T>,
    o1: Seq<int>,
    r2: Seq<T>,
    o2: Seq<int>,
    rank: spec_fn(T) -> int,
)
    requires
        arranges(input, r1, o1, rank),
        arranges(input, r2, o2, rank),
    ensures
        r1 == r2,
{
    lemma_orders_agree_below(input, r1, o1, r2, o2, rank, input.len() as int);
    assert forall|k: int| 0 <= k < r1.len() implies r1[k] == r2[k] by {
        assert(r1[k] == input[o1[k]]);
        assert(r2[k] == input[o2[k]]);
    }
    assert(r1 =~= r2);
}

/// An `(id, key)` entry is ranked by its key.
pub open spec fn key_rank() -> spec_fn((usize, u64)) -> int {
    |entry: (usize, u64)| entry.1 as int
}

/// `ranked` is `entries` rearranged by `order`, keys never rising, equal keys in order.
pub open spec fn ranks_stably(
    entries: Seq<(usize, u64)>,
    ranked: Seq<(usize, u64)>,
    order: Seq<int>,
) -> bool {
    arranges(entries, ranked, order, key_rank())
}

/// `ranked` is the stable ranking of `entries` by key, highest first.
pub open spec fn is_stable_ranking(entries: Seq<(usize, u64)>, ranked: Seq<(usize, u64)>) -> bool {
    exists|order: Seq<int>| ranks_stably(entries, ranked, order)
}

/// Ranks `(id, key)` entries by key, highest first; entries with equal keys keep
/// their order (a stable sort on the reversed key).
pub fn rank_by_key(entries: &Vec<(usize, u64)>) -> (ranked: Vec<(usize, u64)>)
    ensures
        is_stable_ranking(entries@, ranked@),
{
    let ghost rank = key_rank();
    let mut ranked: Vec<(usize, u64)> = Vec::new();
    let ghost mut order: Seq<int> = Seq::empty();
    let mut i: usize = 0;
    while i < entries.len()
        invariant
            i <= entries@.len(),
            rank == key_rank(),
            arranges(entries@.take(i as int), ranked@, order, rank),
        decreases entries@.len() - i,
    {
        let entry = entries[i];
        let mut pos: usize = 0;
        while pos < ranked.len() && ranked[pos].1 >= entry.1
            invariant
                pos <= ranked@.len(),
                rank == key_rank(),
                forall|k: int| 0 <= k < pos ==> rank(#[trigger] ranked@[k]) >= rank(entry),
            decreases ranked@.len() - pos,
        {
            pos = pos + 1;
        }
        proof {
            lemma_rest_ranked_lower(entries@.take(i as int), ranked@, order, rank, pos as int, entry);
            lemma_insert_step(entries@, i as int, ranked@, order, rank, pos as int);
            order = order.insert(pos as int, i as int);
        }
        ranked.insert(pos, entry);
        i = i + 1;
    }
    proof {
        assert(entries@.take(i as int) =~= entries@);
        assert(ranks_stably(entries@, ranked@, order));
    }
    ranked
}

/// The stable ranking of a list of entries is unique: two rankings of the same entries are
/// the same.
pub proof fn law_ranking_is_unique(entries: Seq<(usize, u64)>, r1: Seq<(usize, u64)>, r2: Seq<(usize, u64)>)
    requires
        is_stable_ranking(entries, r1),
        is_stable_ranking(entries, r2),
    ensures
        r1 == r2,
{
    let o1 = choose|o: Seq<int>| ranks_stably(entries, r1, o);
    let o2 = choose|o: Seq<int>| ranks_stably(entries, r2, o);
    law_arrangement_is_unique(entries, r1, o1, r2, o2, key_rank());
}

} // verus!
