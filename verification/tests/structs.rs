use eternity_solver::structs::{Piece, RotatedPiece};

fn piece(number: u16, top: u8, right: u8, bottom: u8, left: u8) -> Piece {
    Piece { piece_number: number, top_side: top, right_side: right, bottom_side: bottom, left_side: left }
}

#[test]
fn piece_type_follows_the_identifier_ranges() {
    assert_eq!(piece(1, 0, 0, 0, 0).piece_type(), 2);
    assert_eq!(piece(4, 0, 0, 0, 0).piece_type(), 2);
    assert_eq!(piece(5, 0, 0, 0, 0).piece_type(), 1);
    assert_eq!(piece(60, 0, 0, 0, 0).piece_type(), 1);
    assert_eq!(piece(61, 0, 0, 0, 0).piece_type(), 0);
    assert_eq!(piece(139, 0, 0, 0, 0).piece_type(), 0);
    assert_eq!(piece(256, 0, 0, 0, 0).piece_type(), 0);
    assert_eq!(piece(0, 0, 0, 0, 0).piece_type(), 0);
}

#[test]
fn one_quarter_turn_moves_left_to_top() {
    let p = piece(9, 1, 2, 3, 4);
    assert_eq!(p.rotated(0), p);
    assert_eq!(p.rotated(1), piece(9, 4, 1, 2, 3));
    assert_eq!(p.rotated(2), piece(9, 3, 4, 1, 2));
    assert_eq!(p.rotated(3), piece(9, 2, 3, 4, 1));
    assert_eq!(p.rotated(4), p);
}

#[test]
fn rotation_then_its_inverse_is_the_identity() {
    let p = piece(77, 11, 6, 0, 22);
    for r in 0..4u8 {
        let back = (4 - r) % 4;
        assert_eq!(p.rotated(r).rotated(back), p);
    }
}

#[test]
fn default_rotated_piece_is_the_empty_cell() {
    let cell = RotatedPiece::default();
    assert_eq!(cell.piece_number, 0);
    assert_eq!(cell.rotations, 0);
    assert_eq!(cell.top_side, 0);
    assert_eq!(cell.right_side, 0);
    assert_eq!(cell.break_count, 0);
    assert_eq!(cell.heuristic_side_count, 0);
    assert!(!cell.is_placeable());
}

#[test]
fn placeable_checks_every_range() {
    let good = RotatedPiece {
        piece_number: 256,
        rotations: 3,
        top_side: 22,
        right_side: 22,
        break_count: 1,
        heuristic_side_count: 4,
    };
    assert!(good.is_placeable());
    assert!(!RotatedPiece { piece_number: 257, ..good }.is_placeable());
    assert!(!RotatedPiece { top_side: 23, ..good }.is_placeable());
    assert!(!RotatedPiece { right_side: 23, ..good }.is_placeable());
    assert!(!RotatedPiece { break_count: 2, ..good }.is_placeable());
    assert!(!RotatedPiece { heuristic_side_count: 5, ..good }.is_placeable());
}
