//! The plain data of the puzzle: pieces, rotated placements, board
//! coordinates and the statistics of one search attempt.

use vstd::prelude::*;

verus! {

/// Largest edge colour; colour 0 is the neutral border.
pub const MAX_COLOR: u8 = 22;

/// Largest piece identifier; identifier 0 marks an empty cell.
pub const MAX_PIECE_NUMBER: u16 = 256;

/// A piece of the catalog, with its four edge colours as printed.
#[derive(Debug, Clone, Copy, PartialEq, Eq, Structural)]
pub struct Piece {
    pub piece_number: u16,
    pub top_side: u8,
    pub right_side: u8,
    pub bottom_side: u8,
    pub left_side: u8,
}

impl Piece {
    /// The role that the identifier stands for: 2 for the corners (1 to 4),
    /// 1 for the border sides (5 to 60), 0 for everything else.
    pub open spec fn spec_piece_type(&self) -> u8 {
        if 1 <= self.piece_number <= 4 {
            2
        } else if 5 <= self.piece_number <= 60 {
            1
        } else {
            0
        }
    }

    /// Returns the type of piece: 2 for corners, 1 for sides, and 0 for middles.
    #[verifier::when_used_as_spec(spec_piece_type)]
    pub fn piece_type(&self) -> (kind: u8)
        ensures
            kind == self.spec_piece_type(),
    {
        if 1 <= self.piece_number && self.piece_number <= 4 {
            2
        } else if 5 <= self.piece_number && self.piece_number <= 60 {
            1
        } else {
            0
        }
    }

    /// A catalog piece has an identifier from 1 to 256 and colours up to 22.
    pub open spec fn wf(&self) -> bool {
        &&& 1 <= self.piece_number <= MAX_PIECE_NUMBER
        &&& self.top_side <= MAX_COLOR
        &&& self.right_side <= MAX_COLOR
        &&& self.bottom_side <= MAX_COLOR
        &&& self.left_side <= MAX_COLOR
    }

    /// The piece after one clockwise quarter turn: what faced left now faces
    /// up, and so on round.
    pub open spec fn quarter_turn(self) -> Piece {
        Piece {
            piece_number: self.piece_number,
            top_side: self.left_side,
            right_side: self.top_side,
            bottom_side: self.right_side,
            left_side: self.bottom_side,
        }
    }

    /// The piece after `rotations` clockwise quarter turns, counted modulo 4.
    pub open spec fn spec_rotated(self, rotations: u8) -> Piece {
        if rotations % 4 == 0 {
            self
        } else if rotations % 4 == 1 {
            self.quarter_turn()
        } else if rotations % 4 == 2 {
            self.quarter_turn().quarter_turn()
        } else {
            self.quarter_turn().quarter_turn().quarter_turn()
        }
    }

    /// Turns the piece clockwise by `rotations` quarter turns.
    #[verifier::when_used_as_spec(spec_rotated)]
    pub fn rotated(self, rotations: u8) -> (turned: Piece)
        ensures
            turned == self.spec_rotated(rotations),
    {
        let Piece { piece_number, top_side, right_side, bottom_side, left_side } = self;
        match rotations % 4 {
            0 => self,
            1 => Piece {
                piece_number,
                top_side: left_side,
                right_side: top_side,
                bottom_side: right_side,
                left_side: bottom_side,
            },
            2 => Piece {
                piece_number,
                top_side: bottom_side,
                right_side: left_side,
                bottom_side: top_side,
                left_side: right_side,
            },
            _ => Piece {
                piece_number,
                top_side: right_side,
                right_side: bottom_side,
                bottom_side: left_side,
                left_side: top_side,
            },
        }
    }
}

/// The rotation that undoes `rotations` quarter turns.
pub open spec fn inverse_rotation(rotations: u8) -> u8 {
    ((4 - rotations % 4) % 4) as u8
}

/// Turning a piece by `r` quarter turns and then by `(4 - r) mod 4` gives
/// back the piece as it was, every edge where it started.
pub proof fn lemma_rotation_closure(piece: Piece, rotations: u8)
    requires
        rotations < 4,
    ensures
        inverse_rotation(rotations) == (4 - rotations) % 4,
        piece.spec_rotated(rotations).spec_rotated(inverse_rotation(rotations)) == piece,
{
}

/// Turning keeps the identifier and the multiset of colours in range.
pub proof fn lemma_rotation_keeps_wf(piece: Piece, rotations: u8)
    requires
        piece.wf(),
    ensures
        piece.spec_rotated(rotations).wf(),
        piece.spec_rotated(rotations).piece_number == piece.piece_number,
{
}

/// A piece as it lies in a cell: which piece, turned how far, and the two
/// colours that it shows to the cells above and to the right.
#[derive(Debug, Clone, Copy, PartialEq, Eq, Structural)]
pub struct RotatedPiece {
    pub piece_number: u16,
    pub rotations: u8,
    pub top_side: u8,
    pub right_side: u8,
    pub break_count: u8,
    pub heuristic_side_count: u8,
}

impl RotatedPiece {
    /// The content of an empty cell.
    pub open spec fn empty() -> RotatedPiece {
        RotatedPiece {
            piece_number: 0,
            rotations: 0,
            top_side: 0,
            right_side: 0,
            break_count: 0,
            heuristic_side_count: 0,
        }
    }

    /// Whether the value stands for an empty cell.
    pub open spec fn is_empty(&self) -> bool {
        self.piece_number == 0
    }

    /// What the search relies on in every value that it reads: colours and
    /// counts within their ranges, and an identifier that the usage set can
    /// hold.
    pub open spec fn in_range(&self) -> bool {
        &&& self.piece_number <= MAX_PIECE_NUMBER
        &&& self.top_side <= MAX_COLOR
        &&& self.right_side <= MAX_COLOR
        &&& self.break_count <= 1
        &&& self.heuristic_side_count <= 4
    }

    /// A value that may be placed: in range, and naming a real piece.
    pub open spec fn placeable(&self) -> bool {
        self.in_range() && self.piece_number >= 1
    }

    /// Checks at run time that the value may be placed.
    pub fn is_placeable(&self) -> (ok: bool)
        ensures
            ok == self.placeable(),
    {
        1 <= self.piece_number && self.piece_number <= MAX_PIECE_NUMBER && self.top_side
            <= MAX_COLOR && self.right_side <= MAX_COLOR && self.break_count <= 1
            && self.heuristic_side_count <= 4
    }
}

impl Default for RotatedPiece {
    fn default() -> (cell: RotatedPiece)
        ensures
            cell == RotatedPiece::empty(),
    {
        RotatedPiece {
            piece_number: 0,
            rotations: 0,
            top_side: 0,
            right_side: 0,
            break_count: 0,
            heuristic_side_count: 0,
        }
    }
}

/// A rotated piece together with the key under which it is a candidate and
/// the score that orders it among the candidates of that key.
#[derive(Debug, Clone, Copy, PartialEq, Eq, Structural)]
pub struct RotatedPieceWithLeftBottom {
    pub left_bottom: u16,
    pub score: i32,
    pub rotated_piece: RotatedPiece,
}

/// A cell of the board by row (0 is the bottom row) and column.
#[derive(Debug, Clone, Copy, PartialEq, Eq, Structural)]
pub struct SearchIndex {
    pub row: u8,
    pub column: u8,
}

impl SearchIndex {
    /// The position of the cell in the row-major board.
    pub open spec fn cell(&self) -> int {
        self.row * 16 + self.column
    }

    /// Whether the cell lies on the board.
    pub open spec fn on_board(&self) -> bool {
        self.row < 16 && self.column < 16
    }
}

/// What one search attempt reports: how often each depth was visited, and
/// the greatest depth reached.
#[derive(Debug, Clone, Copy, PartialEq, Eq)]
pub struct SolverResult {
    pub solve_indexes: [u64; 257],
    pub max_depth: usize,
}

} // verus!
