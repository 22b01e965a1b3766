use eternity_solver::ordering::{order_group, precedes, rank, SortKey};
use eternity_solver::structs::{RotatedPiece, RotatedPieceWithLeftBottom};

fn key(tier: u8, total: i64) -> SortKey {
    SortKey { tier, total }
}

fn candidate(number: u16, breaks: u8, score: i32) -> RotatedPieceWithLeftBottom {
    RotatedPieceWithLeftBottom {
        left_bottom: 0,
        score,
        rotated_piece: RotatedPiece {
            piece_number: number,
            rotations: 0,
            top_side: 0,
            right_side: 0,
            break_count: breaks,
            heuristic_side_count: 0,
        },
    }
}

#[test]
fn precedes_goes_by_tier_then_total() {
    assert!(precedes(key(0, -5), key(1, 500)));
    assert!(!precedes(key(1, 500), key(0, -5)));
    assert!(precedes(key(0, 7), key(0, 6)));
    assert!(!precedes(key(0, 6), key(0, 7)));
    assert!(!precedes(key(0, 6), key(0, 6)));
}

#[test]
fn rank_orders_by_tier_total_and_position() {
    let keys = vec![key(1, 50), key(0, 10), key(0, 30), key(1, 50), key(0, 30), key(0, -1)];
    assert_eq!(rank(&keys), vec![2, 4, 1, 5, 0, 3]);
    assert_eq!(rank(&Vec::new()), Vec::<usize>::new());
    assert_eq!(rank(&vec![key(0, 0)]), vec![0]);
}

#[test]
fn rank_of_descending_and_ascending_input() {
    let descending: Vec<SortKey> = (0..50).map(|i| key(0, 100 - i)).collect();
    assert_eq!(rank(&descending), (0..50).collect::<Vec<usize>>());
    let ascending: Vec<SortKey> = (0..50).map(|i| key(0, i)).collect();
    assert_eq!(rank(&ascending), (0..50).rev().collect::<Vec<usize>>());
}

#[test]
fn order_group_adds_jitter_to_score() {
    let group = vec![
        candidate(1, 0, 0),
        candidate(2, 0, 100),
        candidate(3, 1, -99_900),
        candidate(4, 0, 0),
        candidate(5, 1, -100_000),
    ];
    // Totals: 98, 100, -99_900, 98, -99_902.
    let jitter = vec![98, 0, 0, 98, 98];
    let bucket = order_group(&group, &jitter);
    let numbers: Vec<u16> = bucket.iter().map(|p| p.piece_number).collect();
    assert_eq!(numbers, vec![2, 1, 4, 3, 5]);
    // A jitter that lifts piece 4 above piece 2.
    let jitter = vec![0, 0, 0, 98, 0];
    let bucket = order_group(&group, &jitter);
    let numbers: Vec<u16> = bucket.iter().map(|p| p.piece_number).collect();
    assert_eq!(numbers, vec![2, 4, 1, 3, 5]);
}

#[test]
fn order_group_puts_break_free_candidates_first_whatever_the_score() {
    let group = vec![candidate(1, 1, 1_000_000), candidate(2, 0, -1_000_000)];
    let bucket = order_group(&group, &vec![0, 0]);
    assert_eq!(bucket[0].piece_number, 2);
    assert_eq!(bucket[1].piece_number, 1);
}

#[test]
fn order_group_does_not_overflow_on_extreme_scores() {
    let group = vec![candidate(1, 0, i32::MAX), candidate(2, 0, i32::MIN), candidate(3, 0, i32::MAX)];
    let bucket = order_group(&group, &vec![i32::MAX, i32::MIN, i32::MAX]);
    let numbers: Vec<u16> = bucket.iter().map(|p| p.piece_number).collect();
    assert_eq!(numbers, vec![1, 3, 2]);
}
