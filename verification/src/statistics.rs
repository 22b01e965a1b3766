//! Statistics over many attempts: how often each depth was visited in all,
//! and the greatest depth that any attempt reached.

use vstd::prelude::*;
use crate::structs::SolverResult;

verus! {

/// Number of attempts that each worker runs on one set of tables.
pub const ATTEMPTS_PER_WORKER: usize = 5;

/// Whether the counts of `result` can be added to `counts` depth by depth
/// without leaving the range of the counters.
pub open spec fn can_merge(counts: Seq<u64>, result: Seq<u64>) -> bool {
    forall|depth: int| 0 <= depth < 257 ==> #[trigger] counts[depth] + result[depth] <= u64::MAX
}

/// The sum of the first `depths` counts.
pub open spec fn sum_upto(counts: Seq<u64>, depths: int) -> int
    decreases depths,
{
    if depths <= 0 {
        0
    } else {
        sum_upto(counts, depths - 1) + counts[depths - 1]
    }
}

/// Adds the counts of one attempt to `counts`, depth by depth. Where a sum
/// would leave the range of the counters, nothing is added and the answer is
/// `false`.
pub fn merge_counts(counts: &mut [u64; 257], result: &SolverResult) -> (merged: bool)
    ensures
        merged == can_merge(old(counts)@, result.solve_indexes@),
        merged ==> forall|depth: int|
            0 <= depth < 257 ==> #[trigger] final(counts)[depth] == old(counts)[depth]
                + result.solve_indexes[depth],
        !merged ==> final(counts)@ == old(counts)@,
{
    let mut depth: usize = 0;
    while depth < 257
        invariant
            depth <= 257,
            counts@ == old(counts)@,
            forall|d: int| 0 <= d < depth ==> #[trigger] counts[d] + result.solve_indexes[d] <= u64::MAX,
        decreases 257 - depth,
    {
        if counts[depth] > u64::MAX - result.solve_indexes[depth] {
            return false;
        }
        depth += 1;
    }
    let mut depth: usize = 0;
    while depth < 257
        invariant
            depth <= 257,
            can_merge(old(counts)@, result.solve_indexes@),
            forall|d: int|
                0 <= d < depth ==> #[trigger] counts[d] == old(counts)[d] + result.solve_indexes[d],
            forall|d: int| depth <= d < 257 ==> #[trigger] counts[d] == old(counts)[d],
        decreases 257 - depth,
    {
        let sum = counts[depth] + result.solve_indexes[depth];
        counts[depth] = sum;
        depth += 1;
    }
    true
}

/// The greater of the best depth so far and the depth of one attempt.
pub fn merge_depth(max_depth: usize, result: &SolverResult) -> (best: usize)
    ensures
        best >= max_depth,
        best >= result.max_depth,
        best == max_depth || best == result.max_depth,
{
    if result.max_depth > max_depth {
        result.max_depth
    } else {
        max_depth
    }
}

/// Adds all counts to the running total of node visits, or answers nothing
/// where the total would leave the range of the counter.
pub fn add_to_total(total: u64, counts: &[u64; 257]) -> (sum: Option<u64>)
    ensures
        match sum {
            Some(s) => s == total + sum_upto(counts@, 257),
            None => total + sum_upto(counts@, 257) > u64::MAX,
        },
{
    let mut sum: u64 = total;
    let mut depth: usize = 0;
    while depth < 257
        invariant
            depth <= 257,
            sum == total + sum_upto(counts@, depth as int),
        decreases 257 - depth,
    {
        if counts[depth] > u64::MAX - sum {
            proof {
                lemma_sum_grows(counts@, depth + 1, 257);
            }
            return None;
        }
        sum = sum + counts[depth];
        depth += 1;
    }
    Some(sum)
}

/// The sum over more counts is no smaller.
pub proof fn lemma_sum_grows(counts: Seq<u64>, fewer: int, more: int)
    requires
        fewer <= more,
    ensures
        sum_upto(counts, fewer) <= sum_upto(counts, more),
    decreases more - fewer,
{
    if fewer < more {
        lemma_sum_grows(counts, fewer, more - 1);
        if more <= 0 {
            assert(sum_upto(counts, more) == 0);
            assert(sum_upto(counts, more - 1) == 0);
        }
    }
}

/// Node visits per second, or nothing before the first second has passed.
pub fn nodes_per_second(total: u64, seconds: u64) -> (rate: Option<u64>)
    ensures
        seconds == 0 ==> rate is None,
        seconds > 0 ==> rate == Some((total / seconds) as u64),
{
    if seconds == 0 {
        None
    } else {
        Some(total / seconds)
    }
}

} // verus!
