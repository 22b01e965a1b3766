//! Tunable constants of the standard puzzle instance.

use vstd::prelude::*;

verus! {

/// Number of cells on the board, and of steps in the visitation order.
pub const BOARD_CELLS: usize = 256;

/// Number of keys of a candidate table: one per pair of required colours.
pub const KEY_COUNT: usize = 529;

/// Smallest depth whose first reaching is persisted as a checkpoint.
pub const MIN_SOLVE_INDEX_TO_SAVE: usize = 252;

/// Ceiling on the node visits of one search attempt.
pub const MAX_NODE_COUNT: u64 = 500_000_000;

/// The rare colours that the heuristic floor counts.
pub const HEURISTIC_SIDES: [u8; 3] = [13, 16, 10];

/// The visitation steps at which one more break becomes allowed.
pub const BREAK_INDEXES_ALLOWED: [usize; 10] = [201, 206, 211, 216, 221, 225, 229, 233, 237, 239];

/// Last visitation step at which the heuristic floor is enforced.
pub const MAX_HEURISTIC_INDEX: usize = 160;

/// Identifier of the interior piece that is fixed as the starting piece.
pub const START_PIECE_NUMBER: u16 = 139;

/// Rotation in which the starting piece lies.
pub const START_ROTATION: u8 = 2;

/// Colour that the piece below the starting piece must show upwards.
pub const SOUTH_START_TOP_SIDE: u8 = 6;

/// Colour that the piece left of the starting piece must show to the right.
pub const WEST_START_RIGHT_SIDE: u8 = 11;

} // verus!
