use eternity_solver::statistics::{add_to_total, merge_counts, merge_depth, nodes_per_second};
use eternity_solver::structs::SolverResult;
use eternity_solver::workers::{get_num_cores, workers_from};

fn result(max_depth: usize, at: &[(usize, u64)]) -> SolverResult {
    let mut solve_indexes = [0u64; 257];
    for (depth, count) in at {
        solve_indexes[*depth] = *count;
    }
    SolverResult { solve_indexes, max_depth }
}

#[test]
fn merge_counts_adds_depth_by_depth() {
    let mut counts = [0u64; 257];
    counts[1] = 10;
    counts[256] = 1;
    assert!(merge_counts(&mut counts, &result(3, &[(1, 5), (2, 7), (256, 2)])));
    assert_eq!(counts[1], 15);
    assert_eq!(counts[2], 7);
    assert_eq!(counts[256], 3);
    assert_eq!(counts.iter().sum::<u64>(), 25);
}

#[test]
fn merge_counts_is_commutative() {
    let a = result(3, &[(1, 5), (2, 7)]);
    let b = result(9, &[(2, 1), (9, 4)]);
    let mut ab = [0u64; 257];
    assert!(merge_counts(&mut ab, &a));
    assert!(merge_counts(&mut ab, &b));
    let mut ba = [0u64; 257];
    assert!(merge_counts(&mut ba, &b));
    assert!(merge_counts(&mut ba, &a));
    assert_eq!(ab, ba);
}

#[test]
fn merge_counts_refuses_an_overflow_and_changes_nothing() {
    let mut counts = [0u64; 257];
    counts[4] = 3;
    counts[200] = u64::MAX - 1;
    let before = counts;
    assert!(!merge_counts(&mut counts, &result(1, &[(4, 1), (200, 2)])));
    assert_eq!(counts, before);
    assert!(merge_counts(&mut counts, &result(1, &[(4, 1), (200, 1)])));
    assert_eq!(counts[200], u64::MAX);
    assert_eq!(counts[4], 4);
}

#[test]
fn merge_depth_is_the_maximum() {
    assert_eq!(merge_depth(0, &result(7, &[])), 7);
    assert_eq!(merge_depth(9, &result(7, &[])), 9);
    assert_eq!(merge_depth(7, &result(7, &[])), 7);
}

#[test]
fn add_to_total_sums_all_depths() {
    let r = result(0, &[(0, 1), (1, 2), (100, 3), (256, 4)]);
    assert_eq!(add_to_total(5, &r.solve_indexes), Some(15));
    assert_eq!(add_to_total(u64::MAX - 10, &r.solve_indexes), Some(u64::MAX));
    assert_eq!(add_to_total(u64::MAX - 9, &r.solve_indexes), None);
}

#[test]
fn nodes_per_second_rounds_down_and_needs_a_second() {
    assert_eq!(nodes_per_second(100, 0), None);
    assert_eq!(nodes_per_second(100, 3), Some(33));
    assert_eq!(nodes_per_second(2, 3), Some(0));
}

#[test]
fn one_core_is_kept_free() {
    assert_eq!(workers_from(0), None);
    assert_eq!(workers_from(1), Some(0));
    assert_eq!(workers_from(8), Some(7));
    assert_eq!(get_num_cores(Some(8)), Some(7));
    assert_eq!(get_num_cores(Some(0)), None);
}

#[test]
fn detected_cores_leave_a_number_of_workers() {
    let workers = get_num_cores(None);
    assert_eq!(workers, Some(num_cpus::get() - 1));
}
