use eternity_solver::bits::is_clear;
use eternity_solver::board_order::row_major_order;
use eternity_solver::solve_puzzle::{solve_puzzle, Search, SearchEvent, SearchLimits};
use eternity_solver::solver_data::{
    build_groups, build_table, PieceCategory, SolverData,
};
use eternity_solver::structs::{Piece, RotatedPiece, SearchIndex};
use eternity_solver::tables::{PieceRole, Selection};
use eternity_solver::util::board_text;

fn piece(number: u16, top: u8, right: u8, bottom: u8, left: u8) -> Piece {
    Piece { piece_number: number, top_side: top, right_side: right, bottom_side: bottom, left_side: left }
}

fn candidate(number: u16, top: u8, right: u8, breaks: u8, rare: u8) -> RotatedPiece {
    RotatedPiece {
        piece_number: number,
        rotations: 0,
        top_side: top,
        right_side: right,
        break_count: breaks,
        heuristic_side_count: rare,
    }
}

fn empty_table() -> Vec<Vec<RotatedPiece>> {
    vec![Vec::new(); 529]
}

/// The four corners of a 2 x 2 puzzle: the frame is colour 0, the four
/// inner edges have the colours 2, 3, 4 and 6.
fn toy_pieces() -> Vec<Piece> {
    vec![
        piece(1, 3, 2, 0, 0),
        piece(2, 4, 0, 0, 2),
        piece(3, 0, 6, 3, 0),
        piece(4, 0, 0, 4, 6),
    ]
}

/// A walk that takes the 2 x 2 block in the bottom-left corner first.
fn toy_order() -> [SearchIndex; 256] {
    let first = [(0u8, 0u8), (0, 1), (1, 0), (1, 1)];
    let mut cells: Vec<SearchIndex> =
        first.iter().map(|(row, column)| SearchIndex { row: *row, column: *column }).collect();
    for index in row_major_order() {
        if !first.contains(&(index.row, index.column)) {
            cells.push(index);
        }
    }
    let mut order = [SearchIndex { row: 0, column: 0 }; 256];
    order.copy_from_slice(&cells);
    order
}

/// Tables for the toy puzzle: every cell takes its piece from the corners.
fn toy_data() -> SolverData {
    let pieces = toy_pieces();
    let mut rng = rand::rng();
    SolverData {
        no_pieces: Vec::new(),
        corners: build_table(&pieces, PieceRole::Corner, false, Selection::Any, &mut rng),
        left_sides: empty_table(),
        right_sides_with_breaks: empty_table(),
        right_sides_without_breaks: empty_table(),
        top_sides: empty_table(),
        middles_with_break: empty_table(),
        middles_no_break: empty_table(),
        south_start: empty_table(),
        west_start: empty_table(),
        start: empty_table(),
        bottom_side_pieces_rotated: build_groups(
            &pieces,
            PieceRole::Corner,
            false,
            Selection::Any,
        ),
        master_piece_lookup: [PieceCategory::Corners; 256],
        board_search_sequence: toy_order(),
        break_array: [0u8; 256],
        heuristic_array: vec![0i32; 256],
    }
}

/// Data in which the bucket for the second cell of the bottom row, under a
/// left neighbour that shows colour 2, holds the given candidates.
fn data_with_second_cell(bucket: Vec<RotatedPiece>) -> (SolverData, Vec<Vec<RotatedPiece>>) {
    let mut data = toy_data();
    data.board_search_sequence = row_major_order();
    let mut bottom_sides = empty_table();
    bottom_sides[2 * 23] = bucket;
    data.corners = empty_table();
    data.corners[0] = vec![candidate(1, 3, 2, 0, 0)];
    (data, bottom_sides)
}

fn placed_cells(board: &[RotatedPiece; 256]) -> usize {
    board.iter().filter(|cell| cell.piece_number > 0).count()
}

fn assert_usage_matches_board(search: &Search) {
    for id in 1..=256usize {
        let cells = search.board.iter().filter(|cell| cell.piece_number as usize == id).count();
        assert!(cells <= 1);
        assert_eq!(!is_clear(&search.piece_used, id), cells == 1);
    }
    assert!(is_clear(&search.piece_used, 0));
}

#[test]
fn toy_puzzle_is_solved_and_saved_with_four_cells() {
    let data = toy_data();
    assert!(data.is_well_formed());
    let limits = SearchLimits { min_solve_index_to_save: 0, max_node_count: 100_000 };
    for _ in 0..20 {
        let outcome = solve_puzzle(&data, &limits);
        assert_eq!(outcome.result.max_depth, 4);
        let depths: Vec<usize> = outcome.checkpoints.iter().map(|c| c.depth).collect();
        assert_eq!(depths, vec![2, 3, 4]);
        let last = outcome.checkpoints.last().unwrap();
        let text = String::from_utf8(board_text(&last.board, &toy_pieces())).unwrap();
        let grid: Vec<&str> = text.split("\n\n").next().unwrap().split_whitespace().collect();
        assert_eq!(grid.len(), 256);
        assert_eq!(grid.iter().filter(|token| **token != "---/-").count(), 4);
        // The four pieces lie in the block, each once, and their edges match.
        let board = &last.board;
        let mut numbers: Vec<u16> = [0usize, 1, 16, 17].iter().map(|c| board[*c].piece_number).collect();
        numbers.sort();
        assert_eq!(numbers, vec![1, 2, 3, 4]);
        assert_eq!(board[1].right_side, 0);
        assert_eq!(board[16].top_side, 0);
        assert_eq!(board[17].top_side, 0);
        assert_eq!(board[17].right_side, 0);
        for cell in [0usize, 1, 16, 17] {
            assert_eq!(board[cell].break_count, 0);
        }
    }
}

#[test]
fn toy_checkpoints_hold_as_many_pieces_as_their_depth() {
    let data = toy_data();
    let limits = SearchLimits { min_solve_index_to_save: 3, max_node_count: 100_000 };
    let outcome = solve_puzzle(&data, &limits);
    let depths: Vec<usize> = outcome.checkpoints.iter().map(|c| c.depth).collect();
    assert_eq!(depths, vec![3, 4]);
    for checkpoint in &outcome.checkpoints {
        assert_eq!(placed_cells(&checkpoint.board), checkpoint.depth);
        for cell in checkpoint.board.iter().filter(|cell| cell.piece_number == 0) {
            assert_eq!(*cell, RotatedPiece::default());
        }
    }
}

#[test]
fn a_cell_that_was_left_is_emptied_when_it_is_visited_again() {
    let bucket = vec![candidate(7, 5, 6, 0, 1)];
    let (data, bottom_sides) = data_with_second_cell(bucket.clone());
    let mut search = Search::start_with(&data, bottom_sides, data.corners[0][0]);
    search.visit(&data);
    search.visit(&data);
    assert_eq!(search.solve_index, 1);
    assert_eq!(search.board[1], bucket[0]);
    // The only candidate has been tried: the cell is emptied for good.
    search.visit(&data);
    assert_eq!(search.solve_index, 0);
    assert_eq!(search.board[1], RotatedPiece::default());
    assert!(is_clear(&search.piece_used, 7));
    assert_eq!(search.node_count, 3);
    assert_usage_matches_board(&search);
}

#[test]
fn no_checkpoint_below_the_threshold() {
    let data = toy_data();
    let limits = SearchLimits { min_solve_index_to_save: 5, max_node_count: 100_000 };
    let outcome = solve_puzzle(&data, &limits);
    assert_eq!(outcome.result.max_depth, 4);
    assert!(outcome.checkpoints.is_empty());
}

#[test]
fn counts_add_up_to_the_node_visits() {
    let data = toy_data();
    let limits = SearchLimits { min_solve_index_to_save: 252, max_node_count: 100_000 };
    let outcome = solve_puzzle(&data, &limits);
    let counts = outcome.result.solve_indexes;
    assert_eq!(counts[0], 0);
    assert!(counts[1] >= 1);
    assert!(counts[4] >= 1);
    for depth in 5..257 {
        assert_eq!(counts[depth], 0);
    }
}

#[test]
fn node_ceiling_ends_the_attempt() {
    let data = toy_data();
    for ceiling in 0..4u64 {
        let limits = SearchLimits { min_solve_index_to_save: 252, max_node_count: ceiling };
        let outcome = solve_puzzle(&data, &limits);
        let visits: u64 = outcome.result.solve_indexes.iter().sum();
        assert_eq!(visits, ceiling + 1);
        assert_eq!(outcome.result.max_depth as u64, ceiling + 1);
    }
}

#[test]
fn an_attempt_without_candidates_ends_at_once() {
    let (data, bottom_sides) = data_with_second_cell(Vec::new());
    assert!(data.is_well_formed());
    let limits = SearchLimits::standard();
    let mut search = Search::start_with(&data, bottom_sides, data.corners[0][0]);
    assert_eq!(search.advance(&data, &limits), SearchEvent::Finished);
    assert_eq!(search.solve_index, 0);
    assert_eq!(search.max_solve_index, 1);
    assert_eq!(search.node_count, 1);
    let result = search.result();
    assert_eq!(result.max_depth, 1);
    assert_eq!(result.solve_indexes[1], 1);
    assert_eq!(result.solve_indexes.iter().sum::<u64>(), 1);
    // Resuming a finished attempt changes nothing.
    assert_eq!(search.advance(&data, &limits), SearchEvent::Finished);
    assert_eq!(search.node_count, 1);
}

#[test]
fn start_with_places_the_first_corner() {
    let (data, bottom_sides) = data_with_second_cell(Vec::new());
    let corner = candidate(1, 3, 2, 0, 1);
    let search = Search::start_with(&data, bottom_sides, corner);
    assert_eq!(search.board[0], corner);
    assert_eq!(placed_cells(&search.board), 1);
    assert_eq!(search.solve_index, 1);
    assert_eq!(search.max_solve_index, 1);
    assert_eq!(search.node_count, 1);
    assert_eq!(search.cumulative_heuristic_side_count[0], 1);
    assert_eq!(search.cumulative_breaks[0], 0);
    assert_eq!(search.solve_index_counts[1], 1);
    assert_eq!(search.solve_index_counts.iter().sum::<u64>(), 1);
    assert!(!is_clear(&search.piece_used, 1));
    assert_usage_matches_board(&search);
}

#[test]
fn scan_skips_used_pieces_and_takes_the_first_free_one() {
    let bucket = vec![candidate(1, 0, 0, 0, 0), candidate(7, 5, 6, 0, 0), candidate(8, 0, 0, 0, 0)];
    let (data, bottom_sides) = data_with_second_cell(bucket.clone());
    let search = Search::start_with(&data, bottom_sides, data.corners[0][0]);
    assert_eq!(search.scan(&data), Some((1, bucket[1])));
}

#[test]
fn scan_stops_at_a_break_that_the_budget_does_not_allow() {
    let bucket = vec![candidate(1, 0, 0, 0, 0), candidate(7, 5, 6, 1, 0), candidate(8, 0, 0, 0, 0)];
    let (mut data, bottom_sides) = data_with_second_cell(bucket.clone());
    let search = Search::start_with(&data, bottom_sides.clone(), data.corners[0][0]);
    assert_eq!(search.scan(&data), None);
    // With a budget of one break from step 1 on, the same candidate is taken.
    data.break_array = [1u8; 256];
    data.break_array[0] = 0;
    assert!(data.is_well_formed());
    let search = Search::start_with(&data, bottom_sides, data.corners[0][0]);
    assert_eq!(search.scan(&data), Some((1, bucket[1])));
}

#[test]
fn scan_gives_up_at_the_first_free_piece_below_the_heuristic_floor() {
    let bucket = vec![candidate(7, 5, 6, 0, 0), candidate(8, 0, 0, 0, 2)];
    let (mut data, bottom_sides) = data_with_second_cell(bucket.clone());
    data.heuristic_array[1] = 1;
    assert!(data.is_well_formed());
    let search = Search::start_with(&data, bottom_sides.clone(), data.corners[0][0]);
    assert_eq!(search.scan(&data), None);
    // A first corner that already carries a rare colour lifts the sum.
    let search = Search::start_with(&data, bottom_sides, candidate(1, 3, 2, 0, 1));
    assert_eq!(search.scan(&data), Some((0, bucket[0])));
}

#[test]
fn visit_places_then_retreats_and_resumes_after_the_last_try() {
    let bucket = vec![candidate(7, 5, 6, 0, 1), candidate(8, 4, 0, 0, 0)];
    let (data, bottom_sides) = data_with_second_cell(bucket.clone());
    let mut search = Search::start_with(&data, bottom_sides, data.corners[0][0]);
    search.visit(&data);
    assert_eq!(search.solve_index, 2);
    assert_eq!(search.max_solve_index, 2);
    assert_eq!(search.board[1], bucket[0]);
    assert_eq!(search.piece_index_to_try_next[1], 1);
    assert_eq!(search.cumulative_heuristic_side_count[1], 1);
    assert_eq!(search.node_count, 2);
    assert_usage_matches_board(&search);
    // Nothing answers colour 6 in the third cell: the step retreats.
    search.visit(&data);
    assert_eq!(search.solve_index, 1);
    assert_eq!(search.board[1], bucket[0]);
    assert_eq!(search.piece_index_to_try_next[2], 0);
    assert_eq!(search.node_count, 3);
    assert_usage_matches_board(&search);
    // The second cell is emptied and the next candidate is tried.
    search.visit(&data);
    assert_eq!(search.solve_index, 2);
    assert_eq!(search.board[1], bucket[1]);
    assert_eq!(search.piece_index_to_try_next[1], 2);
    assert_eq!(search.cumulative_heuristic_side_count[1], 0);
    assert!(is_clear(&search.piece_used, 7));
    assert!(!is_clear(&search.piece_used, 8));
    assert_eq!(search.solve_index_counts[1], 2);
    assert_eq!(search.solve_index_counts[2], 2);
    assert_usage_matches_board(&search);
}

#[test]
fn usage_set_matches_the_board_at_every_visit() {
    let data = toy_data();
    let limits = SearchLimits { min_solve_index_to_save: 0, max_node_count: 100_000 };
    let mut rng = rand::rng();
    let mut search = Search::start(&data, &mut rng);
    assert_usage_matches_board(&search);
    let mut visits = 0;
    while !search.is_over(&limits) {
        search.visit(&data);
        assert_usage_matches_board(&search);
        visits += 1;
        assert!(visits <= 100_000);
    }
    assert_eq!(search.max_solve_index, 4);
}

#[test]
fn advance_reports_strictly_rising_depths() {
    let data = toy_data();
    let limits = SearchLimits { min_solve_index_to_save: 2, max_node_count: 100_000 };
    let mut rng = rand::rng();
    let mut search = Search::start(&data, &mut rng);
    let mut depths = Vec::new();
    loop {
        match search.advance(&data, &limits) {
            SearchEvent::Checkpoint(depth) => {
                assert_eq!(depth, search.solve_index);
                assert_eq!(depth, search.max_solve_index);
                assert_eq!(placed_cells(&search.board), depth);
                depths.push(depth);
            }
            SearchEvent::Finished => break,
        }
    }
    assert_eq!(depths, vec![2, 3, 4]);
    assert!(search.is_over(&limits));
}

#[test]
fn first_corner_is_drawn_from_the_corner_candidates() {
    let data = toy_data();
    let mut rng = rand::rng();
    let mut seen = Vec::new();
    for _ in 0..200 {
        let search = Search::start(&data, &mut rng);
        let corner = search.board[0];
        assert!(data.corners[0].contains(&corner));
        if !seen.contains(&corner.piece_number) {
            seen.push(corner.piece_number);
        }
    }
    // Four candidates, two hundred draws: more than one of them is drawn.
    assert!(seen.len() > 1);
}

#[test]
fn standard_limits() {
    let limits = SearchLimits::standard();
    assert_eq!(limits.min_solve_index_to_save, 252);
    assert_eq!(limits.max_node_count, 500_000_000);
}
