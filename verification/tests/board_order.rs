use eternity_solver::board_order::{cell_of, is_valid_board_order, row_major_order};
use eternity_solver::structs::SearchIndex;

#[test]
fn row_major_order_is_valid() {
    let order = row_major_order();
    assert!(is_valid_board_order(&order));
    assert_eq!(order[0], SearchIndex { row: 0, column: 0 });
    assert_eq!(order[15], SearchIndex { row: 0, column: 15 });
    assert_eq!(order[16], SearchIndex { row: 1, column: 0 });
    assert_eq!(order[255], SearchIndex { row: 15, column: 15 });
}

#[test]
fn cell_is_row_times_16_plus_column() {
    assert_eq!(cell_of(SearchIndex { row: 0, column: 0 }), 0);
    assert_eq!(cell_of(SearchIndex { row: 7, column: 6 }), 118);
    assert_eq!(cell_of(SearchIndex { row: 15, column: 15 }), 255);
}

#[test]
fn an_order_must_start_in_the_bottom_left_corner() {
    let mut order = row_major_order();
    order.swap(0, 1);
    assert!(!is_valid_board_order(&order));
}

#[test]
fn an_order_must_not_name_a_cell_twice_or_leave_the_board() {
    let mut twice = row_major_order();
    twice[200] = twice[100];
    assert!(!is_valid_board_order(&twice));
    let mut off_row = row_major_order();
    off_row[200] = SearchIndex { row: 16, column: 0 };
    assert!(!is_valid_board_order(&off_row));
    let mut off_column = row_major_order();
    off_column[200] = SearchIndex { row: 0, column: 16 };
    assert!(!is_valid_board_order(&off_column));
}

fn column_major_order() -> [SearchIndex; 256] {
    let mut order = [SearchIndex { row: 0, column: 0 }; 256];
    for step in 0..256 {
        order[step] = SearchIndex { row: (step % 16) as u8, column: (step / 16) as u8 };
    }
    order
}

#[test]
fn a_walk_may_go_column_by_column() {
    assert!(is_valid_board_order(&column_major_order()));
}

#[test]
fn a_cell_must_come_after_its_left_and_lower_neighbours() {
    // The first cell of row 1 may come before the last cell of row 0.
    let mut early_row = row_major_order();
    early_row.swap(15, 16);
    assert!(is_valid_board_order(&early_row));
    // The second cell of row 1 before the last cell of row 0: the cell
    // below it has been visited, the cell to its left has not.
    let mut early_cell = row_major_order();
    early_cell.swap(15, 17);
    assert!(!is_valid_board_order(&early_cell));
    // The last cell of row 1 before the last cell of row 0: the cell below
    // it is still to come.
    let mut above = row_major_order();
    above.swap(15, 31);
    assert!(!is_valid_board_order(&above));
    // Two neighbours of one row swapped: the left one is still to come.
    let mut swapped = row_major_order();
    swapped.swap(40, 41);
    assert!(!is_valid_board_order(&swapped));
    // A block of four first, then the rest row by row.
    let mut block = row_major_order();
    let head = [(0u8, 0u8), (1, 0), (0, 1), (1, 1)];
    let mut cells: Vec<SearchIndex> =
        head.iter().map(|(row, column)| SearchIndex { row: *row, column: *column }).collect();
    for index in row_major_order() {
        if !head.contains(&(index.row, index.column)) {
            cells.push(index);
        }
    }
    block.copy_from_slice(&cells);
    assert!(is_valid_board_order(&block));
}
