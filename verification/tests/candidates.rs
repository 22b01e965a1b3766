use eternity_solver::candidates::{
    calculate_two_sides, check_and_add_rotation, count_heuristic_sides, get_rotated_pieces,
    is_heuristic_side, is_side_edge,
};
use eternity_solver::structs::{Piece, RotatedPiece, RotatedPieceWithLeftBottom};
use eternity_solver::tables::group_by_left_bottom;

fn piece(number: u16, top: u8, right: u8, bottom: u8, left: u8) -> Piece {
    Piece { piece_number: number, top_side: top, right_side: right, bottom_side: bottom, left_side: left }
}

/// What the two facing edges of a candidate were, recomputed from the piece.
fn facing_edges(p: Piece, c: &RotatedPieceWithLeftBottom) -> (u8, u8) {
    let turned = p.rotated(c.rotated_piece.rotations);
    (turned.left_side, turned.bottom_side)
}

#[test]
fn key_is_left_times_23_plus_bottom() {
    assert_eq!(calculate_two_sides(0, 0), 0);
    assert_eq!(calculate_two_sides(1, 4), 27);
    assert_eq!(calculate_two_sides(22, 22), 528);
}

#[test]
fn frame_reserved_and_rare_colours() {
    let reserved: Vec<u8> = (0..=22).filter(|c| is_side_edge(*c)).collect();
    assert_eq!(reserved, vec![1, 5, 9, 13, 17]);
    let rare: Vec<u8> = (0..=22).filter(|c| is_heuristic_side(*c)).collect();
    assert_eq!(rare, vec![10, 13, 16]);
}

#[test]
fn heuristic_side_count_counts_edges() {
    assert_eq!(count_heuristic_sides(&piece(70, 1, 2, 3, 4)), 0);
    assert_eq!(count_heuristic_sides(&piece(70, 13, 2, 3, 4)), 1);
    assert_eq!(count_heuristic_sides(&piece(70, 13, 16, 10, 4)), 3);
    assert_eq!(count_heuristic_sides(&piece(70, 10, 10, 10, 10)), 4);
}

#[test]
fn single_piece_without_breaks_has_one_entry_per_rotation_key() {
    // Edges (1, 2, 3, 4) as left, top, right, bottom.
    let p = piece(100, 2, 3, 4, 1);
    let list = get_rotated_pieces(&p, false);
    assert_eq!(list.len(), 4);
    let groups = group_by_left_bottom(list);
    assert_eq!(groups.len(), 529);
    // rotation 0: left 1, bottom 4; rotation 1: left 4, bottom 3;
    // rotation 2: left 3, bottom 2; rotation 3: left 2, bottom 1.
    let expected: [(usize, u8, u8, u8); 4] =
        [(27, 0, 2, 3), (95, 1, 1, 2), (71, 2, 4, 1), (47, 3, 3, 4)];
    for key in 0..529 {
        match expected.iter().find(|e| e.0 == key) {
            Some(&(_, rotation, top, right)) => {
                assert_eq!(groups[key].len(), 1);
                let c = groups[key][0];
                assert_eq!(c.left_bottom as usize, key);
                assert_eq!(c.score, 0);
                assert_eq!(
                    c.rotated_piece,
                    RotatedPiece {
                        piece_number: 100,
                        rotations: rotation,
                        top_side: top,
                        right_side: right,
                        break_count: 0,
                        heuristic_side_count: 0,
                    }
                );
            }
            None => assert_eq!(groups[key].len(), 0),
        }
    }
}

#[test]
fn candidates_come_in_key_then_rotation_order() {
    let p = piece(100, 2, 3, 4, 1);
    let list = get_rotated_pieces(&p, true);
    for pair in list.windows(2) {
        let a = (pair[0].left_bottom, pair[0].rotated_piece.rotations);
        let b = (pair[1].left_bottom, pair[1].rotated_piece.rotations);
        assert!(a < b);
    }
}

#[test]
fn break_count_is_the_number_of_mismatches_and_never_two() {
    let pieces = [
        piece(61, 2, 3, 4, 6),
        piece(62, 10, 13, 16, 7),
        piece(5, 0, 1, 8, 5),
        piece(1, 0, 0, 9, 17),
        piece(200, 22, 22, 22, 22),
    ];
    for p in pieces {
        for allow in [false, true] {
            let list = get_rotated_pieces(&p, allow);
            for c in &list {
                let (left, bottom) = facing_edges(p, c);
                let target_l = (c.left_bottom / 23) as u8;
                let target_b = (c.left_bottom % 23) as u8;
                let mismatches = (left != target_l) as u8 + (bottom != target_b) as u8;
                assert_eq!(c.rotated_piece.break_count, mismatches);
                assert!(c.rotated_piece.break_count <= 1);
                if !allow {
                    assert_eq!(c.rotated_piece.break_count, 0);
                }
                assert!(c.left_bottom < 529);
                assert_eq!(c.rotated_piece.piece_number, p.piece_number);
                let turned = p.rotated(c.rotated_piece.rotations);
                assert_eq!(c.rotated_piece.top_side, turned.top_side);
                assert_eq!(c.rotated_piece.right_side, turned.right_side);
            }
        }
    }
}

#[test]
fn no_candidate_breaks_on_a_frame_reserved_colour() {
    let pieces = [piece(5, 0, 1, 8, 5), piece(1, 0, 0, 9, 17), piece(62, 10, 13, 16, 7)];
    for p in pieces {
        let list = get_rotated_pieces(&p, true);
        for c in &list {
            let (left, bottom) = facing_edges(p, c);
            let target_l = (c.left_bottom / 23) as u8;
            let target_b = (c.left_bottom % 23) as u8;
            if left != target_l {
                assert!(!is_side_edge(left));
            }
            if bottom != target_b {
                assert!(!is_side_edge(bottom));
            }
        }
    }
}

#[test]
fn number_of_candidates_with_breaks_allowed() {
    // No edge is frame-reserved: each rotation matches 1 key exactly and
    // 22 + 22 keys with one break.
    let p = piece(100, 2, 3, 4, 6);
    assert_eq!(get_rotated_pieces(&p, true).len(), 4 * 45);
    // All four edges frame-reserved: only the exact matches stay.
    let q = piece(101, 1, 5, 9, 17);
    assert_eq!(get_rotated_pieces(&q, true).len(), 4);
}

#[test]
fn score_is_bonus_minus_penalty() {
    let plain = piece(100, 2, 3, 4, 6);
    for c in get_rotated_pieces(&plain, true) {
        assert_eq!(c.score, -100_000 * c.rotated_piece.break_count as i32);
        assert_eq!(c.rotated_piece.heuristic_side_count, 0);
    }
    let rare = piece(101, 10, 16, 4, 6);
    for c in get_rotated_pieces(&rare, true) {
        assert_eq!(c.score, 100 - 100_000 * c.rotated_piece.break_count as i32);
        assert_eq!(c.rotated_piece.heuristic_side_count, 2);
    }
}

#[test]
fn check_and_add_rotation_keeps_and_rejects() {
    let p = piece(100, 2, 3, 4, 6);
    let mut list = Vec::new();
    // Exact match.
    check_and_add_rotation(&mut list, &p, 6, 4, 0, 6, 4, 2, 3, 100, 1, false);
    assert_eq!(list.len(), 1);
    assert_eq!(list[0].left_bottom, 6 * 23 + 4);
    assert_eq!(list[0].score, 100);
    assert_eq!(list[0].rotated_piece.break_count, 0);
    assert_eq!(list[0].rotated_piece.heuristic_side_count, 1);
    // One mismatch, breaks not allowed.
    check_and_add_rotation(&mut list, &p, 7, 4, 0, 6, 4, 2, 3, 100, 1, false);
    assert_eq!(list.len(), 1);
    // One mismatch, breaks allowed.
    check_and_add_rotation(&mut list, &p, 7, 4, 0, 6, 4, 2, 3, 100, 1, true);
    assert_eq!(list.len(), 2);
    assert_eq!(list[1].score, 100 - 100_000);
    assert_eq!(list[1].rotated_piece.break_count, 1);
    // Two mismatches.
    check_and_add_rotation(&mut list, &p, 7, 8, 0, 6, 4, 2, 3, 100, 1, true);
    assert_eq!(list.len(), 2);
    // One mismatch on a frame-reserved colour.
    check_and_add_rotation(&mut list, &p, 7, 4, 0, 5, 4, 2, 3, 100, 1, true);
    assert_eq!(list.len(), 2);
}
