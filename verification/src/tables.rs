//! Candidate tables: the candidates of a set of pieces, grouped by the pair
//! of colours that they answer and ordered within each group.

use rand::rngs::ThreadRng;
use vstd::prelude::*;
use crate::candidates::{
    get_rotated_pieces,
    is_candidate_of,
    lemma_candidates_sound,
    rotated_candidates,
    SLOT_COUNT,
};
use crate::config::{KEY_COUNT, START_PIECE_NUMBER};
use crate::ordering::{is_shuffle_of, order_group, JITTER_BOUND};
use crate::rng::random_index;
use crate::structs::{Piece, RotatedPiece, RotatedPieceWithLeftBottom};

verus! {

/// The part that a piece plays on the board.
#[derive(Debug, Clone, Copy, PartialEq, Eq, Structural)]
pub enum PieceRole {
    /// One of the four corner pieces.
    Corner,
    /// A piece of the border between the corners.
    Side,
    /// An interior piece other than the starting piece.
    Middle,
    /// The starting piece.
    Start,
}

/// Which candidates of a piece a table takes.
#[derive(Debug, Clone, Copy, PartialEq, Eq, Structural)]
pub enum Selection {
    /// All of them.
    Any,
    /// Those in the given rotation.
    Rotation(u8),
    /// Those that show the given colour upwards.
    TopSide(u8),
    /// Those that show the given colour to the right.
    RightSide(u8),
}

impl PieceRole {
    /// Whether `piece` plays this part.
    pub open spec fn spec_covers(self, piece: Piece) -> bool {
        match self {
            PieceRole::Corner => piece.spec_piece_type() == 2,
            PieceRole::Side => piece.spec_piece_type() == 1,
            PieceRole::Middle => piece.spec_piece_type() == 0 && piece.piece_number
                != START_PIECE_NUMBER,
            PieceRole::Start => piece.piece_number == START_PIECE_NUMBER,
        }
    }

    /// Whether `piece` plays this part.
    #[verifier::when_used_as_spec(spec_covers)]
    pub fn covers(self, piece: Piece) -> (covered: bool)
        ensures
            covered == self.spec_covers(piece),
    {
        match self {
            PieceRole::Corner => piece.piece_type() == 2,
            PieceRole::Side => piece.piece_type() == 1,
            PieceRole::Middle => piece.piece_type() == 0 && piece.piece_number
                != START_PIECE_NUMBER,
            PieceRole::Start => piece.piece_number == START_PIECE_NUMBER,
        }
    }
}

impl Selection {
    /// Whether the selection takes candidate `c`.
    pub open spec fn spec_takes(self, c: RotatedPieceWithLeftBottom) -> bool {
        match self {
            Selection::Any => true,
            Selection::Rotation(r) => c.rotated_piece.rotations == r,
            Selection::TopSide(color) => c.rotated_piece.top_side == color,
            Selection::RightSide(color) => c.rotated_piece.right_side == color,
        }
    }

    /// Whether the selection takes candidate `c`.
    #[verifier::when_used_as_spec(spec_takes)]
    pub fn takes(self, c: RotatedPieceWithLeftBottom) -> (taken: bool)
        ensures
            taken == self.spec_takes(c),
    {
        match self {
            Selection::Any => true,
            Selection::Rotation(r) => c.rotated_piece.rotations == r,
            Selection::TopSide(color) => c.rotated_piece.top_side == color,
            Selection::RightSide(color) => c.rotated_piece.right_side == color,
        }
    }
}

/// The candidates among `cands` that `selection` takes, in order.
pub open spec fn select(cands: Seq<RotatedPieceWithLeftBottom>, selection: Selection) -> Seq<
    RotatedPieceWithLeftBottom,
>
    decreases cands.len(),
{
    if cands.len() == 0 {
        Seq::empty()
    } else {
        let earlier = select(cands.drop_last(), selection);
        if selection.spec_takes(cands.last()) {
            earlier.push(cands.last())
        } else {
            earlier
        }
    }
}

/// The candidates that a table is built from: for each piece of `pieces`
/// that plays `role`, in catalog order, those of its candidates that
/// `selection` takes.
pub open spec fn source_candidates(
    pieces: Seq<Piece>,
    role: PieceRole,
    allow_breaks: bool,
    selection: Selection,
) -> Seq<RotatedPieceWithLeftBottom>
    decreases pieces.len(),
{
    if pieces.len() == 0 {
        Seq::empty()
    } else {
        let earlier = source_candidates(pieces.drop_last(), role, allow_breaks, selection);
        if role.spec_covers(pieces.last()) {
            earlier + select(rotated_candidates(pieces.last(), allow_breaks), selection)
        } else {
            earlier
        }
    }
}

/// The candidates among `cands` that answer `key`, in order.
pub open spec fn with_key(cands: Seq<RotatedPieceWithLeftBottom>, key: int) -> Seq<
    RotatedPieceWithLeftBottom,
>
    decreases cands.len(),
{
    if cands.len() == 0 {
        Seq::empty()
    } else {
        let earlier = with_key(cands.drop_last(), key);
        if cands.last().left_bottom == key {
            earlier.push(cands.last())
        } else {
            earlier
        }
    }
}

/// Whether `c` is a candidate of some piece of the catalog that plays `role`.
pub open spec fn from_catalog(
    c: RotatedPieceWithLeftBottom,
    pieces: Seq<Piece>,
    role: PieceRole,
    allow_breaks: bool,
) -> bool {
    exists|j: int|
        0 <= j < pieces.len() && role.spec_covers(pieces[j]) && #[trigger] is_candidate_of(
            c,
            pieces[j],
            allow_breaks,
        )
}

/// Whether every candidate of `cands` is one of the catalog for `role` and
/// is taken by `selection`.
pub open spec fn all_from_catalog(
    cands: Seq<RotatedPieceWithLeftBottom>,
    pieces: Seq<Piece>,
    role: PieceRole,
    allow_breaks: bool,
    selection: Selection,
) -> bool {
    forall|i: int|
        0 <= i < cands.len() ==> from_catalog(#[trigger] cands[i], pieces, role, allow_breaks)
            && selection.spec_takes(cands[i])
}

/// Every selected candidate is one of the candidates selected from, and is
/// taken by the selection.
pub proof fn lemma_select_members(
    cands: Seq<RotatedPieceWithLeftBottom>,
    selection: Selection,
    i: int,
)
    requires
        0 <= i < select(cands, selection).len(),
    ensures
        cands.contains(select(cands, selection)[i]),
        selection.spec_takes(select(cands, selection)[i]),
    decreases cands.len(),
{
    let earlier = select(cands.drop_last(), selection);
    if selection.spec_takes(cands.last()) && i == earlier.len() {
        assert(cands[cands.len() - 1] == select(cands, selection)[i]);
    } else {
        lemma_select_members(cands.drop_last(), selection, i);
        let k = choose|k: int|
            0 <= k < cands.drop_last().len() && cands.drop_last()[k] == select(cands, selection)[i];
        assert(cands[k] == select(cands, selection)[i]);
    }
}

/// Every candidate that a table is built from is a candidate of a piece of
/// the catalog that plays the role, and is taken by the selection.
pub proof fn lemma_source_candidates_from_catalog(
    pieces: Seq<Piece>,
    role: PieceRole,
    allow_breaks: bool,
    selection: Selection,
)
    ensures
        all_from_catalog(
            source_candidates(pieces, role, allow_breaks, selection),
            pieces,
            role,
            allow_breaks,
            selection,
        ),
    decreases pieces.len(),
{
    if pieces.len() > 0 {
        let shorter = pieces.drop_last();
        let earlier = source_candidates(shorter, role, allow_breaks, selection);
        let all = source_candidates(pieces, role, allow_breaks, selection);
        lemma_source_candidates_from_catalog(shorter, role, allow_breaks, selection);
        assert forall|i: int| 0 <= i < all.len() implies from_catalog(
            #[trigger] all[i],
            pieces,
            role,
            allow_breaks,
        ) && selection.spec_takes(all[i]) by {
            if i < earlier.len() {
                assert(all[i] == earlier[i]);
                assert(from_catalog(earlier[i], shorter, role, allow_breaks));
                let j = choose|j: int|
                    0 <= j < shorter.len() && role.spec_covers(shorter[j])
                        && #[trigger] is_candidate_of(earlier[i], shorter[j], allow_breaks);
                assert(is_candidate_of(all[i], pieces[j], allow_breaks));
            } else {
                let rotated = rotated_candidates(pieces.last(), allow_breaks);
                let taken = select(rotated, selection);
                assert(all[i] == taken[i - earlier.len()]);
                lemma_select_members(rotated, selection, i - earlier.len());
                let k = choose|k: int| 0 <= k < rotated.len() && rotated[k] == all[i];
                lemma_candidates_sound(pieces.last(), allow_breaks, SLOT_COUNT as int, k);
                assert(is_candidate_of(all[i], pieces[pieces.len() - 1], allow_breaks));
            }
        }
    }
}

/// Collects the candidates of the pieces that play `role`, keeping those
/// that `selection` takes.
pub fn collect_candidates(
    pieces: &Vec<Piece>,
    role: PieceRole,
    allow_breaks: bool,
    selection: Selection,
) -> (cands: Vec<RotatedPieceWithLeftBottom>)
    ensures
        cands@ == source_candidates(pieces@, role, allow_breaks, selection),
        all_from_catalog(cands@, pieces@, role, allow_breaks, selection),
{
    let mut cands: Vec<RotatedPieceWithLeftBottom> = Vec::new();
    let mut j: usize = 0;
    while j < pieces.len()
        invariant
            j <= pieces.len(),
            cands@ == source_candidates(pieces@.take(j as int), role, allow_breaks, selection),
            all_from_catalog(cands@, pieces@, role, allow_breaks, selection),
        decreases pieces.len() - j,
    {
        proof {
            assert(pieces@.take(j + 1).drop_last() =~= pieces@.take(j as int));
        }
        let piece = pieces[j];
        if role.covers(piece) {
            let rotated = get_rotated_pieces(&piece, allow_breaks);
            let ghost before = cands@;
            let mut i: usize = 0;
            while i < rotated.len()
                invariant
                    i <= rotated.len(),
                    j < pieces.len(),
                    piece == pieces[j as int],
                    role.spec_covers(piece),
                    rotated@ == rotated_candidates(piece, allow_breaks),
                    forall|k: int|
                        0 <= k < rotated.len() ==> is_candidate_of(
                            #[trigger] rotated[k],
                            piece,
                            allow_breaks,
                        ),
                    cands@ == before + select(rotated@.take(i as int), selection),
                    all_from_catalog(cands@, pieces@, role, allow_breaks, selection),
                decreases rotated.len() - i,
            {
                proof {
                    assert(rotated@.take(i + 1).drop_last() =~= rotated@.take(i as int));
                }
                let c = rotated[i];
                if selection.takes(c) {
                    cands.push(c);
                    proof {
                        assert(is_candidate_of(c, pieces[j as int], allow_breaks));
                        assert(cands@ =~= before + select(rotated@.take(i + 1), selection));
                    }
                }
                i += 1;
            }
            proof {
                assert(rotated@.take(rotated.len() as int) =~= rotated@);
            }
        }
        j += 1;
    }
    proof {
        assert(pieces@.take(pieces.len() as int) =~= pieces@);
    }
    cands
}

/// Every candidate that answers `key` among `cands` is one of `cands` and
/// carries that key.
pub proof fn lemma_with_key_members(cands: Seq<RotatedPieceWithLeftBottom>, key: int, i: int)
    requires
        0 <= i < with_key(cands, key).len(),
    ensures
        with_key(cands, key)[i].left_bottom == key,
        cands.contains(with_key(cands, key)[i]),
    decreases cands.len(),
{
    let earlier = with_key(cands.drop_last(), key);
    if cands.last().left_bottom == key && i == earlier.len() {
        assert(cands[cands.len() - 1] == with_key(cands, key)[i]);
    } else {
        lemma_with_key_members(cands.drop_last(), key, i);
        let k = choose|k: int|
            0 <= k < cands.drop_last().len() && cands.drop_last()[k] == with_key(cands, key)[i];
        assert(cands[k] == with_key(cands, key)[i]);
    }
}

/// Groups candidates by the key that they answer, keeping within each group
/// the order in which they came.
pub fn group_by_left_bottom(pieces: Vec<RotatedPieceWithLeftBottom>) -> (groups: Vec<
    Vec<RotatedPieceWithLeftBottom>,
>)
    requires
        forall|i: int| 0 <= i < pieces.len() ==> (#[trigger] pieces[i]).left_bottom < KEY_COUNT,
    ensures
        groups.len() == KEY_COUNT,
        forall|key: int|
            0 <= key < KEY_COUNT ==> (#[trigger] groups[key])@ == with_key(pieces@, key),
{
    let mut groups: Vec<Vec<RotatedPieceWithLeftBottom>> = Vec::new();
    let mut key: usize = 0;
    while key < KEY_COUNT
        invariant
            key <= KEY_COUNT,
            groups.len() == key,
            forall|k: int| 0 <= k < key ==> (#[trigger] groups[k])@ == Seq::<
                RotatedPieceWithLeftBottom,
            >::empty(),
        decreases KEY_COUNT - key,
    {
        groups.push(Vec::new());
        key += 1;
    }
    let mut i: usize = 0;
    while i < pieces.len()
        invariant
            i <= pieces.len(),
            groups.len() == KEY_COUNT,
            forall|k: int| 0 <= k < pieces.len() ==> (#[trigger] pieces[k]).left_bottom < KEY_COUNT,
            forall|key: int|
                0 <= key < KEY_COUNT ==> (#[trigger] groups[key])@ == with_key(
                    pieces@.take(i as int),
                    key,
                ),
        decreases pieces.len() - i,
    {
        let piece = pieces[i];
        let ghost before = groups@;
        proof {
            assert(pieces@.take(i + 1).drop_last() =~= pieces@.take(i as int));
        }
        groups[piece.left_bottom as usize].push(piece);
        proof {
            assert forall|key: int| 0 <= key < KEY_COUNT implies (#[trigger] groups[key])@
                == with_key(pieces@.take(i + 1), key) by {
                if key != piece.left_bottom {
                    assert(groups[key] == before[key]);
                }
            }
        }
        i += 1;
    }
    proof {
        assert(pieces@.take(pieces.len() as int) =~= pieces@);
    }
    groups
}

/// Whether `table` holds, for every key, the candidates that `groups` holds
/// for it, ordered under some jitter.
pub open spec fn is_sorted_array_of(
    table: Seq<Vec<RotatedPiece>>,
    groups: Seq<Vec<RotatedPieceWithLeftBottom>>,
) -> bool {
    &&& table.len() == groups.len()
    &&& forall|key: int|
        0 <= key < table.len() ==> is_shuffle_of((#[trigger] table[key])@, groups[key]@)
}

/// Draws one jitter value for each of `count` candidates.
pub fn draw_jitter(count: usize, rng: &mut ThreadRng) -> (jitter: Vec<i32>)
    ensures
        jitter.len() == count,
        forall|i: int| 0 <= i < count ==> 0 <= #[trigger] jitter[i] < JITTER_BOUND,
{
    let mut jitter: Vec<i32> = Vec::new();
    let mut i: usize = 0;
    while i < count
        invariant
            i <= count,
            jitter.len() == i,
            forall|k: int| 0 <= k < i ==> 0 <= #[trigger] jitter[k] < JITTER_BOUND,
        decreases count - i,
    {
        let drawn = random_index(rng, JITTER_BOUND);
        jitter.push(drawn as i32);
        i += 1;
    }
    jitter
}

/// Orders each group by break tier and by score with a fresh random jitter,
/// and strips the candidates to the rotated pieces.
pub fn create_sorted_array(
    map: &Vec<Vec<RotatedPieceWithLeftBottom>>,
    rng: &mut ThreadRng,
) -> (result: Vec<Vec<RotatedPiece>>)
    ensures
        is_sorted_array_of(result@, map@),
{
    let mut result: Vec<Vec<RotatedPiece>> = Vec::new();
    let mut key: usize = 0;
    while key < map.len()
        invariant
            key <= map.len(),
            result.len() == key,
            forall|k: int| 0 <= k < key ==> is_shuffle_of((#[trigger] result[k])@, map[k]@),
        decreases map.len() - key,
    {
        let jitter = draw_jitter(map[key].len(), rng);
        let bucket = order_group(&map[key], &jitter);
        result.push(bucket);
        key += 1;
    }
    result
}

} // verus!
