//! Stable ordering of indices by descending rank.

use vstd::prelude::*;

verus! {

/// Index `i` stands before index `j` in dispatch order: it has the higher
/// rank, or the same rank and was registered earlier.
pub open spec fn precedes(ranks: Seq<usize>, i: int, j: int) -> bool {
    ranks[i] > ranks[j] || (ranks[i] == ranks[j] && i < j)
}

/// The value `v` occurs in `run`.
pub open spec fn occurs(run: Seq<usize>, v: int) -> bool {
    exists|k: int| 0 <= k < run.len() && #[trigger] run[k] == v
}

/// `run` holds each index of `lo..hi` exactly once, every index before all
/// those it precedes.
pub open spec fn is_ordered_run(ranks: Seq<usize>, run: Seq<usize>, lo: int, hi: int) -> bool {
    &&& run.len() == hi - lo
    &&& forall|k: int| 0 <= k < run.len() ==> lo <= #[trigger] run[k] < hi
    &&& forall|v: int| lo <= v < hi ==> #[trigger] occurs(run, v)
    &&& forall|a: int, b: int|
        0 <= a < b < run.len() ==> precedes(ranks, #[trigger] run[a] as int, #[trigger] run[b] as int)
}

/// `order` is the stable arrangement of all indices of `ranks` by descending
/// rank: a permutation of `0..ranks.len()` in which ranks never increase and
/// indices of equal rank stand in ascending order.
pub open spec fn is_stable_order(ranks: Seq<usize>, order: Seq<usize>) -> bool {
    is_ordered_run(ranks, order, 0, ranks.len() as int)
}

/// Two stable arrangements of the same ranks agree on their first `k` places.
proof fn lemma_prefixes_agree(ranks: Seq<usize>, first: Seq<usize>, second: Seq<usize>, k: int)
    requires
        is_stable_order(ranks, first),
        is_stable_order(ranks, second),
        0 <= k <= ranks.len(),
    ensures
        forall|j: int| 0 <= j < k ==> first[j] == second[j],
    decreases k,
{
    if k > 0 {
        lemma_prefixes_agree(ranks, first, second, k - 1);
        let x = first[k - 1];
        let y = second[k - 1];
        if x != y {
            // x stands somewhere in `second`, y somewhere in `first`; neither can
            // stand in the common prefix, so each would have to precede the other.
            assert(occurs(second, x as int));
            assert(occurs(first, y as int));
            let p = choose|p: int| 0 <= p < second.len() && second[p] == x;
            let q = choose|q: int| 0 <= q < first.len() && first[q] == y;
            if p < k - 1 {
                assert(first[p] == second[p]);
                assert(precedes(ranks, first[p] as int, first[k - 1] as int));
            }
            if q < k - 1 {
                assert(first[q] == second[q]);
                assert(precedes(ranks, second[q] as int, second[k - 1] as int));
            }
            assert(precedes(ranks, second[k - 1] as int, second[p] as int));
            assert(precedes(ranks, first[k - 1] as int, first[q] as int));
        }
    }
}

/// The stable arrangement of given ranks is unique.
pub proof fn lemma_stable_order_unique(ranks: Seq<usize>, first: Seq<usize>, second: Seq<usize>)
    requires
        is_stable_order(ranks, first),
        is_stable_order(ranks, second),
    ensures
        first == second,
{
    lemma_prefixes_agree(ranks, first, second, ranks.len() as int);
    assert(first =~= second);
}

/// Merges two adjacent ordered runs into one.
fn merge_runs(
    ranks: &Vec<usize>,
    left: &Vec<usize>,
    right: &Vec<usize>,
    Ghost(lo): Ghost<int>,
    Ghost(mid): Ghost<int>,
    Ghost(hi): Ghost<int>,
) -> (out: Vec<usize>)
    requires
        0 <= lo <= mid <= hi <= ranks.len(),
        is_ordered_run(ranks@, left@, lo, mid),
        is_ordered_run(ranks@, right@, mid, hi),
    ensures
        is_ordered_run(ranks@, out@, lo, hi),
{
    let mut out: Vec<usize> = Vec::new();
    let mut i: usize = 0;
    let mut j: usize = 0;
    while i < left.len() || j < right.len()
        invariant
            0 <= lo <= mid <= hi <= ranks.len(),
            is_ordered_run(ranks@, left@, lo, mid),
            is_ordered_run(ranks@, right@, mid, hi),
            i <= left.len(),
            j <= right.len(),
            out.len() == i + j,
            forall|k: int| 0 <= k < out.len() ==> lo <= #[trigger] out[k] < hi,
            forall|k: int| 0 <= k < i ==> occurs(out@, #[trigger] left[k] as int),
            forall|k: int| 0 <= k < j ==> occurs(out@, #[trigger] right[k] as int),
            forall|a: int, b: int|
                0 <= a < b < out.len() ==> precedes(ranks@, #[trigger] out[a] as int, #[trigger] out[b] as int),
            forall|a: int, k: int|
                0 <= a < out.len() && i <= k < left.len() ==> precedes(
                    ranks@,
                    #[trigger] out[a] as int,
                    #[trigger] left[k] as int,
                ),
            forall|a: int, k: int|
                0 <= a < out.len() && j <= k < right.len() ==> precedes(
                    ranks@,
                    #[trigger] out[a] as int,
                    #[trigger] right[k] as int,
                ),
        decreases left.len() - i + right.len() - j,
    {
        let take_left = if i == left.len() {
            false
        } else if j == right.len() {
            true
        } else {
            ranks[left[i]] >= ranks[right[j]]
        };
        let ghost before = out@;
        if take_left {
            let x = left[i];
            out.push(x);
            proof {
                assert(out[i + j] == left[i as int]);
                assert forall|k: int| j <= k < right.len() implies precedes(
                    ranks@,
                    x as int,
                    #[trigger] right[k] as int,
                ) by {
                    if k > j {
                        assert(precedes(ranks@, right[j as int] as int, right[k] as int));
                    }
                }
            }
            i += 1;
        } else {
            let x = right[j];
            out.push(x);
            proof {
                assert(out[i + j] == right[j as int]);
                assert forall|k: int| i <= k < left.len() implies precedes(
                    ranks@,
                    x as int,
                    #[trigger] left[k] as int,
                ) by {
                    if k > i {
                        assert(precedes(ranks@, left[i as int] as int, left[k] as int));
                    }
                }
            }
            j += 1;
        }
        proof {
            assert forall|k: int| 0 <= k < i implies occurs(out@, #[trigger] left[k] as int) by {
                if k < i - 1 || !take_left {
                    assert(occurs(before, left[k] as int));
                    let m = choose|m: int| 0 <= m < before.len() && before[m] == left[k];
                    assert(out[m] == left[k]);
                } else {
                    assert(out[before.len() as int] == left[k]);
                }
            }
            assert forall|k: int| 0 <= k < j implies occurs(out@, #[trigger] right[k] as int) by {
                if k < j - 1 || take_left {
                    assert(occurs(before, right[k] as int));
                    let m = choose|m: int| 0 <= m < before.len() && before[m] == right[k];
                    assert(out[m] == right[k]);
                } else {
                    assert(out[before.len() as int] == right[k]);
                }
            }
        }
    }
    proof {
        assert forall|v: int| lo <= v < hi implies #[trigger] occurs(out@, v) by {
            if v < mid {
                assert(occurs(left@, v));
                let k = choose|k: int| 0 <= k < left.len() && left[k] == v;
                assert(occurs(out@, left[k] as int));
            } else {
                assert(occurs(right@, v));
                let k = choose|k: int| 0 <= k < right.len() && right[k] == v;
                assert(occurs(out@, right[k] as int));
            }
        }
    }
    out
}

/// Arranges the indices `lo..hi` by descending rank, by merge sort.
fn ordered_run(ranks: &Vec<usize>, lo: usize, hi: usize) -> (run: Vec<usize>)
    requires
        lo <= hi <= ranks.len(),
    ensures
        is_ordered_run(ranks@, run@, lo as int, hi as int),
    decreases hi - lo,
{
    if hi - lo <= 1 {
        let mut run: Vec<usize> = Vec::new();
        if lo < hi {
            run.push(lo);
            assert(run[0] == lo);
        }
        run
    } else {
        let mid = lo + (hi - lo) / 2;
        let left = ordered_run(ranks, lo, mid);
        let right = ordered_run(ranks, mid, hi);
        merge_runs(ranks, &left, &right, Ghost(lo as int), Ghost(mid as int), Ghost(hi as int))
    }
}

/// Returns the indices of `ranks` in dispatch order: descending by rank,
/// indices of equal rank ascending.
pub fn stable_order(ranks: &Vec<usize>) -> (order: Vec<usize>)
    ensures
        is_stable_order(ranks@, order@),
{
    ordered_run(ranks, 0, ranks.len())
}

} // verus!
