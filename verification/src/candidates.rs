//! Candidates of one piece: for every pair of required colours and every
//! rotation, whether the piece may lie there, with how many breaks, and what
//! it then shows to its upper and right neighbours.

use vstd::prelude::*;
use crate::config::HEURISTIC_SIDES;
use crate::structs::{Piece, RotatedPiece, RotatedPieceWithLeftBottom, MAX_COLOR};

verus! {

/// Number of slots that one piece is tried in: 23 x 23 keys, 4 rotations each.
pub const SLOT_COUNT: usize = 2116;

/// Score given to a candidate whose piece carries a rare colour.
pub const HEURISTIC_BONUS: i32 = 100;

/// Score taken from a candidate for each break.
pub const BREAK_PENALTY: i32 = 100_000;

/// The colours that are reserved for the edges that run along the frame.
pub const SIDE_EDGES: [u8; 5] = [1, 5, 9, 13, 17];

/// Whether a colour is reserved for the edges that run along the frame.
pub open spec fn spec_is_side_edge(color: u8) -> bool {
    color == 1 || color == 5 || color == 9 || color == 13 || color == 17
}

/// Whether a colour is reserved for the edges that run along the frame.
#[verifier::when_used_as_spec(spec_is_side_edge)]
pub fn is_side_edge(color: u8) -> (reserved: bool)
    ensures
        reserved == spec_is_side_edge(color),
{
    color == SIDE_EDGES[0] || color == SIDE_EDGES[1] || color == SIDE_EDGES[2] || color
        == SIDE_EDGES[3] || color == SIDE_EDGES[4]
}

/// Whether a colour is one of the rare colours that the heuristic counts.
pub open spec fn spec_is_heuristic_side(color: u8) -> bool {
    color == 13 || color == 16 || color == 10
}

/// Whether a colour is one of the rare colours that the heuristic counts.
#[verifier::when_used_as_spec(spec_is_heuristic_side)]
pub fn is_heuristic_side(color: u8) -> (is_rare: bool)
    ensures
        is_rare == spec_is_heuristic_side(color),
{
    color == HEURISTIC_SIDES[0] || color == HEURISTIC_SIDES[1] || color == HEURISTIC_SIDES[2]
}

/// One if the colour is rare, zero otherwise.
pub open spec fn rare(color: u8) -> int {
    if spec_is_heuristic_side(color) {
        1
    } else {
        0
    }
}

/// How many of the four edges of a piece carry a rare colour.
pub open spec fn heuristic_sides_of(piece: Piece) -> int {
    rare(piece.left_side) + rare(piece.top_side) + rare(piece.right_side) + rare(
        piece.bottom_side,
    )
}

/// The score of a piece before breaks and jitter: the bonus if it carries a
/// rare colour at all.
pub open spec fn base_score_of(piece: Piece) -> int {
    if heuristic_sides_of(piece) > 0 {
        HEURISTIC_BONUS as int
    } else {
        0
    }
}

/// The key of a pair of required colours.
pub open spec fn spec_two_sides(side1: int, side2: int) -> int {
    side1 * 23 + side2
}

/// The key under which the candidates for a required left colour `side1`
/// and a required bottom colour `side2` are grouped.
pub fn calculate_two_sides(side1: u16, side2: u16) -> (key: u16)
    requires
        side1 * 23 + side2 <= u16::MAX,
    ensures
        key == spec_two_sides(side1 as int, side2 as int),
{
    (side1 * 23) + side2
}

/// Number of the two facing edges that differ from what is required.
pub open spec fn mismatches(side_l: u8, side_b: u8, target_l: int, target_b: int) -> int {
    (if side_l != target_l {
        1int
    } else {
        0
    }) + (if side_b != target_b {
        1int
    } else {
        0
    })
}

/// Number of the mismatched edges that carry a frame-reserved colour.
pub open spec fn side_mismatches(side_l: u8, side_b: u8, target_l: int, target_b: int) -> int {
    (if side_l != target_l && spec_is_side_edge(side_l) {
        1int
    } else {
        0
    }) + (if side_b != target_b && spec_is_side_edge(side_b) {
        1int
    } else {
        0
    })
}

/// Whether a rotation is kept as a candidate: no mismatch, or one where
/// breaks are allowed, and in no case a mismatch on a frame-reserved colour.
pub open spec fn is_kept(
    side_l: u8,
    side_b: u8,
    target_l: int,
    target_b: int,
    allow_breaks: bool,
) -> bool {
    let breaks = mismatches(side_l, side_b, target_l, target_b);
    (breaks == 0 || (breaks == 1 && allow_breaks)) && side_mismatches(
        side_l,
        side_b,
        target_l,
        target_b,
    ) == 0
}

/// The candidate that a kept rotation becomes.
pub open spec fn candidate_of(
    piece_number: u16,
    target_l: int,
    target_b: int,
    rot_idx: u8,
    side_l: u8,
    side_b: u8,
    out_top: u8,
    out_right: u8,
    score_base: int,
    h_count: u8,
) -> RotatedPieceWithLeftBottom {
    let breaks = mismatches(side_l, side_b, target_l, target_b);
    RotatedPieceWithLeftBottom {
        left_bottom: spec_two_sides(target_l, target_b) as u16,
        score: (score_base - BREAK_PENALTY * breaks) as i32,
        rotated_piece: RotatedPiece {
            piece_number,
            rotations: rot_idx,
            top_side: out_top,
            right_side: out_right,
            break_count: breaks as u8,
            heuristic_side_count: h_count,
        },
    }
}

/// Appends to `list` the candidate for one rotation of `piece` against one
/// pair of required colours, if that rotation is kept.
///
/// `p_side_l` and `p_side_b` are the colours that the rotated piece turns
/// to the left and to the bottom, `out_top` and `out_right` those it turns
/// to the top and to the right.
pub fn check_and_add_rotation(
    list: &mut Vec<RotatedPieceWithLeftBottom>,
    piece: &Piece,
    target_l: u16,
    target_b: u16,
    rot_idx: u8,
    p_side_l: u8,
    p_side_b: u8,
    out_top: u8,
    out_right: u8,
    score_base: i32,
    h_count: u8,
    allow_breaks: bool,
)
    requires
        target_l <= MAX_COLOR,
        target_b <= MAX_COLOR,
        score_base - BREAK_PENALTY >= i32::MIN,
    ensures
        final(list)@ == if is_kept(
            p_side_l,
            p_side_b,
            target_l as int,
            target_b as int,
            allow_breaks,
        ) {
            old(list)@.push(
                candidate_of(
                    piece.piece_number,
                    target_l as int,
                    target_b as int,
                    rot_idx,
                    p_side_l,
                    p_side_b,
                    out_top,
                    out_right,
                    score_base as int,
                    h_count,
                ),
            )
        } else {
            old(list)@
        },
{
    let mut breaks: u8 = 0;
    let mut side_breaks: u8 = 0;

    if p_side_l as u16 != target_l {
        breaks += 1;
        if is_side_edge(p_side_l) {
            side_breaks += 1;
        }
    }
    if p_side_b as u16 != target_b {
        breaks += 1;
        if is_side_edge(p_side_b) {
            side_breaks += 1;
        }
    }

    if ((breaks == 0) || (breaks == 1 && allow_breaks)) && side_breaks == 0 {
        list.push(
            RotatedPieceWithLeftBottom {
                left_bottom: calculate_two_sides(target_l, target_b),
                score: score_base - (BREAK_PENALTY * breaks as i32),
                rotated_piece: RotatedPiece {
                    piece_number: piece.piece_number,
                    rotations: rot_idx,
                    top_side: out_top,
                    right_side: out_right,
                    break_count: breaks,
                    heuristic_side_count: h_count,
                },
            },
        );
    }
}

/// The required left colour of a slot.
pub open spec fn slot_left(slot: int) -> int {
    slot / 92
}

/// The required bottom colour of a slot.
pub open spec fn slot_bottom(slot: int) -> int {
    (slot / 4) % 23
}

/// The rotation of a slot.
pub open spec fn slot_rotation(slot: int) -> u8 {
    (slot % 4) as u8
}

/// Whether `piece` is kept in `slot`.
pub open spec fn slot_kept(piece: Piece, slot: int, allow_breaks: bool) -> bool {
    let turned = piece.spec_rotated(slot_rotation(slot));
    is_kept(turned.left_side, turned.bottom_side, slot_left(slot), slot_bottom(slot), allow_breaks)
}

/// The candidate that `piece` becomes in `slot`.
pub open spec fn slot_candidate(piece: Piece, slot: int) -> RotatedPieceWithLeftBottom {
    let turned = piece.spec_rotated(slot_rotation(slot));
    candidate_of(
        piece.piece_number,
        slot_left(slot),
        slot_bottom(slot),
        slot_rotation(slot),
        turned.left_side,
        turned.bottom_side,
        turned.top_side,
        turned.right_side,
        base_score_of(piece),
        heuristic_sides_of(piece) as u8,
    )
}

/// The candidates of `piece` in the first `slots` slots, in slot order.
pub open spec fn candidates_upto(piece: Piece, allow_breaks: bool, slots: int) -> Seq<
    RotatedPieceWithLeftBottom,
>
    decreases slots,
{
    if slots <= 0 {
        Seq::empty()
    } else {
        let earlier = candidates_upto(piece, allow_breaks, slots - 1);
        if slot_kept(piece, slots - 1, allow_breaks) {
            earlier.push(slot_candidate(piece, slots - 1))
        } else {
            earlier
        }
    }
}

/// All candidates of `piece`: required left colour ascending, then required
/// bottom colour, then rotation.
pub open spec fn rotated_candidates(piece: Piece, allow_breaks: bool) -> Seq<
    RotatedPieceWithLeftBottom,
> {
    candidates_upto(piece, allow_breaks, SLOT_COUNT as int)
}

/// What holds of a candidate `c` of `piece`: its key names a pair of
/// colours, its break count is the number of mismatches between that pair
/// and what the rotated piece turns to the left and the bottom, which is at
/// most one and zero where breaks are not allowed, no mismatch is on a
/// frame-reserved colour, and its two outward colours are those of the
/// rotated piece.
pub open spec fn is_candidate_of(
    c: RotatedPieceWithLeftBottom,
    piece: Piece,
    allow_breaks: bool,
) -> bool {
    let turned = piece.spec_rotated(c.rotated_piece.rotations);
    let target_l = c.left_bottom / 23;
    let target_b = c.left_bottom % 23;
    let breaks = mismatches(turned.left_side, turned.bottom_side, target_l as int, target_b as int);
    &&& c.left_bottom < 529
    &&& c.rotated_piece.rotations < 4
    &&& c.rotated_piece.piece_number == piece.piece_number
    &&& c.rotated_piece.top_side == turned.top_side
    &&& c.rotated_piece.right_side == turned.right_side
    &&& c.rotated_piece.break_count == breaks
    &&& breaks <= 1
    &&& !allow_breaks ==> breaks == 0
    &&& side_mismatches(turned.left_side, turned.bottom_side, target_l as int, target_b as int)
        == 0
    &&& c.rotated_piece.heuristic_side_count == heuristic_sides_of(piece)
    &&& c.score == base_score_of(piece) - BREAK_PENALTY * breaks
}

/// A kept slot yields a candidate with the right break count and without a
/// mismatch on a frame-reserved colour.
pub proof fn lemma_slot_candidate(piece: Piece, slot: int, allow_breaks: bool)
    requires
        0 <= slot < SLOT_COUNT,
        slot_kept(piece, slot, allow_breaks),
    ensures
        is_candidate_of(slot_candidate(piece, slot), piece, allow_breaks),
        slot_candidate(piece, slot).left_bottom == slot / 4,
{
    let c = slot_candidate(piece, slot);
    let l = slot_left(slot);
    let b = slot_bottom(slot);
    assert(0 <= l < 23 && 0 <= b < 23);
    assert(l * 23 + b == slot / 4);
    assert(c.left_bottom == l * 23 + b);
    assert(c.left_bottom / 23 == l && c.left_bottom % 23 == b);
}

/// Every candidate in the list comes from a kept slot.
pub proof fn lemma_candidates_sound(piece: Piece, allow_breaks: bool, slots: int, i: int)
    requires
        0 <= slots <= SLOT_COUNT,
        0 <= i < candidates_upto(piece, allow_breaks, slots).len(),
    ensures
        exists|slot: int|
            0 <= slot < slots && slot_kept(piece, slot, allow_breaks) && candidates_upto(
                piece,
                allow_breaks,
                slots,
            )[i] == #[trigger] slot_candidate(piece, slot),
        is_candidate_of(candidates_upto(piece, allow_breaks, slots)[i], piece, allow_breaks),
    decreases slots,
{
    let earlier = candidates_upto(piece, allow_breaks, slots - 1);
    if slot_kept(piece, slots - 1, allow_breaks) && i == earlier.len() {
        lemma_slot_candidate(piece, slots - 1, allow_breaks);
        assert(candidates_upto(piece, allow_breaks, slots)[i] == slot_candidate(piece, slots - 1));
    } else {
        lemma_candidates_sound(piece, allow_breaks, slots - 1, i);
    }
}

/// Every kept slot has its candidate in the list.
pub proof fn lemma_candidates_complete(piece: Piece, allow_breaks: bool, slots: int, slot: int)
    requires
        0 <= slot < slots,
        slot_kept(piece, slot, allow_breaks),
    ensures
        candidates_upto(piece, allow_breaks, slots).contains(slot_candidate(piece, slot)),
    decreases slots,
{
    let earlier = candidates_upto(piece, allow_breaks, slots - 1);
    let all = candidates_upto(piece, allow_breaks, slots);
    if slot == slots - 1 {
        assert(all[earlier.len() as int] == slot_candidate(piece, slot));
    } else {
        lemma_candidates_complete(piece, allow_breaks, slots - 1, slot);
        let i = choose|i: int| 0 <= i < earlier.len() && earlier[i] == slot_candidate(piece, slot);
        assert(all[i] == slot_candidate(piece, slot));
    }
}

/// The number of rare-coloured edges of `piece`.
pub fn count_heuristic_sides(piece: &Piece) -> (count: u8)
    ensures
        count == heuristic_sides_of(*piece),
        count <= 4,
{
    let mut count: u8 = 0;
    if is_heuristic_side(piece.left_side) {
        count += 1;
    }
    if is_heuristic_side(piece.top_side) {
        count += 1;
    }
    if is_heuristic_side(piece.right_side) {
        count += 1;
    }
    if is_heuristic_side(piece.bottom_side) {
        count += 1;
    }
    count
}

/// Lists the candidates of `piece` for every pair of required colours and
/// every rotation, in that order.
#[verifier::rlimit(40)]
pub fn get_rotated_pieces(piece: &Piece, allow_breaks: bool) -> (rotated_pieces: Vec<
    RotatedPieceWithLeftBottom,
>)
    ensures
        rotated_pieces@ == rotated_candidates(*piece, allow_breaks),
        forall|i: int|
            0 <= i < rotated_pieces.len() ==> is_candidate_of(
                #[trigger] rotated_pieces[i],
                *piece,
                allow_breaks,
            ),
{
    let heuristic_side_count = count_heuristic_sides(piece);
    let score_base: i32 = if heuristic_side_count > 0 {
        HEURISTIC_BONUS
    } else {
        0
    };

    let mut rotated_pieces: Vec<RotatedPieceWithLeftBottom> = Vec::new();

    let mut left: u16 = 0;
    while left <= 22
        invariant
            left <= 23,
            heuristic_side_count == heuristic_sides_of(*piece),
            score_base == base_score_of(*piece),
            rotated_pieces@ == candidates_upto(*piece, allow_breaks, left * 92),
        decreases 23 - left,
    {
        let mut bottom: u16 = 0;
        while bottom <= 22
            invariant
                left <= 22,
                bottom <= 23,
                heuristic_side_count == heuristic_sides_of(*piece),
                score_base == base_score_of(*piece),
                rotated_pieces@ == candidates_upto(
                    *piece,
                    allow_breaks,
                    (left * 23 + bottom) * 4,
                ),
            decreases 23 - bottom,
        {
            let mut rotation: u8 = 0;
            while rotation < 4
                invariant
                    left <= 22,
                    bottom <= 22,
                    rotation <= 4,
                    heuristic_side_count == heuristic_sides_of(*piece),
                    score_base == base_score_of(*piece),
                    rotated_pieces@ == candidates_upto(
                        *piece,
                        allow_breaks,
                        (left * 23 + bottom) * 4 + rotation,
                    ),
                decreases 4 - rotation,
            {
                let ghost slot: int = (left * 23 + bottom) * 4 + rotation;
                proof {
                    assert(slot_left(slot) == left);
                    assert(slot_bottom(slot) == bottom);
                    assert(slot_rotation(slot) == rotation);
                }
                let turned = piece.rotated(rotation);
                check_and_add_rotation(
                    &mut rotated_pieces,
                    piece,
                    left,
                    bottom,
                    rotation,
                    turned.left_side,
                    turned.bottom_side,
                    turned.top_side,
                    turned.right_side,
                    score_base,
                    heuristic_side_count,
                    allow_breaks,
                );
                rotation += 1;
            }
            bottom += 1;
        }
        left += 1;
    }
    proof {
        assert forall|i: int| 0 <= i < rotated_pieces.len() implies is_candidate_of(
            #[trigger] rotated_pieces[i],
            *piece,
            allow_breaks,
        ) by {
            lemma_candidates_sound(*piece, allow_breaks, SLOT_COUNT as int, i);
        }
    }
    rotated_pieces
}

} // verus!
