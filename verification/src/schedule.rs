//! The two pruning schedules of the search: how many breaks are allowed up
//! to each visitation step, and how many rare-coloured edges must have been
//! placed by then.

use vstd::prelude::*;
use crate::config::{BOARD_CELLS, BREAK_INDEXES_ALLOWED, MAX_HEURISTIC_INDEX};

verus! {

/// Whether `step` is one of the steps at which one more break is allowed.
pub open spec fn is_break_index(indexes: Seq<usize>, step: int) -> bool {
    exists|k: int| 0 <= k < indexes.len() && #[trigger] indexes[k] == step
}

/// The number of break steps among the steps `0..=step`.
pub open spec fn breaks_allowed_upto(indexes: Seq<usize>, step: int) -> int
    decreases step + 1,
{
    if step < 0 {
        0
    } else {
        breaks_allowed_upto(indexes, step - 1) + if is_break_index(indexes, step) {
            1int
        } else {
            0
        }
    }
}

/// The break budget never shrinks, grows by exactly one at each break step
/// and by nothing at any other step.
pub proof fn lemma_break_schedule_monotone(indexes: Seq<usize>, from: int, to: int)
    requires
        from <= to,
    ensures
        0 <= breaks_allowed_upto(indexes, from) <= breaks_allowed_upto(indexes, to),
        breaks_allowed_upto(indexes, to) - breaks_allowed_upto(indexes, to - 1) == if 0 <= to
            && is_break_index(indexes, to) {
            1int
        } else {
            0
        },
    decreases to - from,
{
    lemma_break_budget_nonnegative(indexes, from);
    if from < to {
        lemma_break_schedule_monotone(indexes, from, to - 1);
    }
}

proof fn lemma_break_budget_nonnegative(indexes: Seq<usize>, step: int)
    ensures
        0 <= breaks_allowed_upto(indexes, step),
    decreases step + 1,
{
    if step >= 0 {
        lemma_break_budget_nonnegative(indexes, step - 1);
    }
}

/// One more listed index adds at most one to the budget of any step.
proof fn lemma_break_budget_push(indexes: Seq<usize>, extra: usize, step: int)
    ensures
        breaks_allowed_upto(indexes.push(extra), step) <= breaks_allowed_upto(indexes, step) + if 0
            <= extra <= step {
            1int
        } else {
            0
        },
        breaks_allowed_upto(indexes.push(extra), step) >= breaks_allowed_upto(indexes, step),
    decreases step + 1,
{
    if step >= 0 {
        lemma_break_budget_push(indexes, extra, step - 1);
        let longer = indexes.push(extra);
        if is_break_index(longer, step) {
            let k = choose|k: int| 0 <= k < longer.len() && #[trigger] longer[k] == step;
            if k < indexes.len() {
                assert(indexes[k] == step);
            } else {
                assert(extra == step);
                lemma_break_budget_below(longer, extra, step - 1);
                lemma_break_budget_below(indexes, extra, step - 1);
            }
        }
        if is_break_index(indexes, step) {
            let k = choose|k: int| 0 <= k < indexes.len() && #[trigger] indexes[k] == step;
            assert(longer[k] == step);
        }
    }
}

/// Below step `extra`, listing `extra` once more changes nothing.
proof fn lemma_break_budget_below(indexes: Seq<usize>, extra: usize, step: int)
    requires
        step < extra,
    ensures
        breaks_allowed_upto(indexes.push(extra), step) == breaks_allowed_upto(indexes, step),
    decreases step + 1,
{
    if step >= 0 {
        lemma_break_budget_below(indexes, extra, step - 1);
        let longer = indexes.push(extra);
        if is_break_index(longer, step) {
            let k = choose|k: int| 0 <= k < longer.len() && #[trigger] longer[k] == step;
            assert(indexes[k] == step);
        }
        if is_break_index(indexes, step) {
            let k = choose|k: int| 0 <= k < indexes.len() && #[trigger] indexes[k] == step;
            assert(longer[k] == step);
        }
    }
}

/// The budget never exceeds the number of listed indexes.
pub proof fn lemma_break_budget_bounded(indexes: Seq<usize>, step: int)
    ensures
        breaks_allowed_upto(indexes, step) <= indexes.len(),
    decreases indexes.len(),
{
    if indexes.len() == 0 {
        lemma_no_indexes_no_budget(indexes, step);
    } else {
        lemma_break_budget_bounded(indexes.drop_last(), step);
        lemma_break_budget_push(indexes.drop_last(), indexes.last(), step);
        assert(indexes.drop_last().push(indexes.last()) =~= indexes);
    }
}

proof fn lemma_no_indexes_no_budget(indexes: Seq<usize>, step: int)
    requires
        indexes.len() == 0,
    ensures
        breaks_allowed_upto(indexes, step) == 0,
    decreases step + 1,
{
    if step >= 0 {
        lemma_no_indexes_no_budget(indexes, step - 1);
    }
}

/// Whether `step` is listed in `indexes`.
pub fn contains_index(indexes: &[usize], step: usize) -> (listed: bool)
    ensures
        listed == is_break_index(indexes@, step as int),
{
    let mut k: usize = 0;
    while k < indexes.len()
        invariant
            k <= indexes.len(),
            forall|j: int| 0 <= j < k ==> indexes[j] != step,
        decreases indexes.len() - k,
    {
        if indexes[k] == step {
            return true;
        }
        k += 1;
    }
    false
}

/// The smallest listed index, or the number of board cells where none is
/// listed.
pub open spec fn is_first_break_index(indexes: Seq<usize>, first: int) -> bool {
    if indexes.len() == 0 {
        first == BOARD_CELLS
    } else {
        is_break_index(indexes, first) && forall|k: int|
            0 <= k < indexes.len() ==> first <= #[trigger] indexes[k]
    }
}

/// The first step at which a break is allowed under `indexes`.
pub fn first_break_index_of(indexes: &[usize]) -> (first: usize)
    ensures
        is_first_break_index(indexes@, first as int),
{
    if indexes.len() == 0 {
        return BOARD_CELLS;
    }
    let mut first: usize = indexes[0];
    let mut k: usize = 1;
    while k < indexes.len()
        invariant
            1 <= k <= indexes.len(),
            is_break_index(indexes@, first as int),
            forall|j: int| 0 <= j < k ==> first <= #[trigger] indexes[j],
        decreases indexes.len() - k,
    {
        if indexes[k] < first {
            first = indexes[k];
        }
        k += 1;
    }
    first
}

/// The first step at which the standard schedule allows a break.
pub fn first_break_index() -> (first: usize)
    ensures
        is_first_break_index(BREAK_INDEXES_ALLOWED@, first as int),
        first == 201,
{
    let first = first_break_index_of(&BREAK_INDEXES_ALLOWED);
    proof {
        assert(BREAK_INDEXES_ALLOWED@[0] == 201);
        assert(first <= BREAK_INDEXES_ALLOWED@[0]);
    }
    first
}

/// The cumulative break budget of each of the first `steps` steps under
/// `indexes`.
pub fn break_schedule(indexes: &[usize], steps: usize) -> (schedule: Vec<u8>)
    requires
        indexes.len() <= u8::MAX,
    ensures
        schedule.len() == steps,
        forall|i: int|
            0 <= i < steps ==> #[trigger] schedule[i] == breaks_allowed_upto(indexes@, i),
{
    let mut schedule: Vec<u8> = Vec::new();
    let mut count: u8 = 0;
    let mut i: usize = 0;
    while i < steps
        invariant
            i <= steps,
            indexes.len() <= u8::MAX,
            schedule.len() == i,
            count == breaks_allowed_upto(indexes@, i - 1),
            forall|k: int| 0 <= k < i ==> #[trigger] schedule[k] == breaks_allowed_upto(indexes@, k),
        decreases steps - i,
    {
        proof {
            lemma_break_budget_bounded(indexes@, i as int);
        }
        if contains_index(indexes, i) {
            count += 1;
        }
        schedule.push(count);
        i += 1;
    }
    schedule
}

/// The cumulative break budget of the standard puzzle, step by step.
pub fn get_break_array() -> (cumulative_breaks: [u8; 256])
    ensures
        forall|i: int|
            0 <= i < 256 ==> #[trigger] cumulative_breaks[i] == breaks_allowed_upto(
                BREAK_INDEXES_ALLOWED@,
                i,
            ),
{
    let mut cumulative_breaks = [0u8;256];
    let mut count: u8 = 0;
    let mut i: usize = 0;
    while i < 256
        invariant
            i <= 256,
            count == breaks_allowed_upto(BREAK_INDEXES_ALLOWED@, i - 1),
            forall|k: int|
                0 <= k < i ==> #[trigger] cumulative_breaks[k] == breaks_allowed_upto(
                    BREAK_INDEXES_ALLOWED@,
                    k,
                ),
        decreases 256 - i,
    {
        proof {
            lemma_break_budget_bounded(BREAK_INDEXES_ALLOWED@, i as int);
        }
        if contains_index(&BREAK_INDEXES_ALLOWED, i) {
            count += 1;
        }
        cumulative_breaks[i] = count;
        i += 1;
    }
    cumulative_breaks
}

/// The least number of rare-coloured edges that must have been placed by
/// visitation step `step`: a staircase of five linear segments, rounded
/// down, and zero up to step 16 and beyond the cutoff.
pub open spec fn heuristic_floor(step: int) -> int {
    if step <= 16 {
        0
    } else if step <= 26 {
        (step - 16) * 28 / 10
    } else if step <= 56 {
        (step - 26) * 143333 / 100000 + 28
    } else if step <= 76 {
        (step - 56) * 9 / 10 + 71
    } else if step <= 102 {
        (step - 76) * 6538 / 10000 + 89
    } else if step <= MAX_HEURISTIC_INDEX {
        (step - 102) * 10000 / 44615 + 106
    } else {
        0
    }
}

/// The heuristic floor is zero up to step 16 and beyond step 160, never
/// shrinks from step 17 to step 160, and stays below 120.
pub proof fn lemma_heuristic_floor_shape(from: int, to: int)
    ensures
        from <= 16 ==> heuristic_floor(from) == 0,
        from > MAX_HEURISTIC_INDEX ==> heuristic_floor(from) == 0,
        0 <= heuristic_floor(from) <= 119,
        17 <= from <= to <= MAX_HEURISTIC_INDEX ==> heuristic_floor(from) <= heuristic_floor(to),
{
}

/// The heuristic floor of the standard puzzle, step by step.
pub fn get_heuristic_array() -> (heuristic_array: Vec<i32>)
    ensures
        heuristic_array.len() == 256,
        forall|i: int| 0 <= i < 256 ==> #[trigger] heuristic_array[i] == heuristic_floor(i),
{
    let mut heuristic_array: Vec<i32> = Vec::new();
    let mut i: i32 = 0;
    while i < 256
        invariant
            0 <= i <= 256,
            heuristic_array.len() == i,
            forall|k: int| 0 <= k < i ==> #[trigger] heuristic_array[k] == heuristic_floor(k),
        decreases 256 - i,
    {
        let value: i32 = if i <= 16 {
            0
        } else if i <= 26 {
            (i - 16) * 28 / 10
        } else if i <= 56 {
            (i - 26) * 143333 / 100000 + 28
        } else if i <= 76 {
            (i - 56) * 9 / 10 + 71
        } else if i <= 102 {
            (i - 76) * 6538 / 10000 + 89
        } else if i <= MAX_HEURISTIC_INDEX as i32 {
            (i - 102) * 10000 / 44615 + 106
        } else {
            0
        };
        heuristic_array.push(value);
        i += 1;
    }
    heuristic_array
}

} // verus!
