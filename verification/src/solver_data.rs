//! The immutable data of one outer iteration: the candidate tables, the
//! table that governs each cell, the visitation order and the two pruning
//! schedules.

use rand::rngs::ThreadRng;
use vstd::prelude::*;
use crate::board_order::{cell_of, is_valid_board_order, valid_board_order};
use crate::candidates::{is_candidate_of, mismatches, side_mismatches};
use crate::config::{
    BREAK_INDEXES_ALLOWED,
    KEY_COUNT,
    SOUTH_START_TOP_SIDE,
    START_ROTATION,
    WEST_START_RIGHT_SIDE,
};
use crate::ordering::{
    is_ordering_of,
    is_shuffle_of,
    lemma_ordering_keeps_tiers,
    pieces_of,
    JITTER_BOUND,
};
use crate::rng::thread_rng;
use crate::schedule::{
    breaks_allowed_upto,
    first_break_index,
    get_break_array,
    get_heuristic_array,
    heuristic_floor,
    lemma_break_schedule_monotone,
    lemma_heuristic_floor_shape,
};
use crate::structs::{
    Piece,
    RotatedPiece,
    RotatedPieceWithLeftBottom,
    SearchIndex,
    MAX_COLOR,
    MAX_PIECE_NUMBER,
};
use crate::tables::{
    all_from_catalog,
    collect_candidates,
    create_sorted_array,
    from_catalog,
    group_by_left_bottom,
    is_sorted_array_of,
    lemma_with_key_members,
    source_candidates,
    with_key,
    PieceRole,
    Selection,
};

verus! {

/// Which candidate table governs a cell.
#[derive(Debug, Clone, Copy, PartialEq, Eq, Structural)]
pub enum PieceCategory {
    NoPieces,
    Corners,
    LeftSides,
    RightSidesWithBreaks,
    RightSidesWithoutBreaks,
    TopSides,
    MiddlesWithBreak,
    MiddlesNoBreak,
    SouthStart,
    WestStart,
    Start,
}

/// The tables and schedules that all attempts of one outer iteration share.
pub struct SolverData {
    pub no_pieces: Vec<Vec<RotatedPiece>>,
    pub corners: Vec<Vec<RotatedPiece>>,
    pub left_sides: Vec<Vec<RotatedPiece>>,
    pub right_sides_with_breaks: Vec<Vec<RotatedPiece>>,
    pub right_sides_without_breaks: Vec<Vec<RotatedPiece>>,
    pub top_sides: Vec<Vec<RotatedPiece>>,
    pub middles_with_break: Vec<Vec<RotatedPiece>>,
    pub middles_no_break: Vec<Vec<RotatedPiece>>,
    pub south_start: Vec<Vec<RotatedPiece>>,
    pub west_start: Vec<Vec<RotatedPiece>>,
    pub start: Vec<Vec<RotatedPiece>>,
    pub bottom_side_pieces_rotated: Vec<Vec<RotatedPieceWithLeftBottom>>,
    pub master_piece_lookup: [PieceCategory; 256],
    pub board_search_sequence: [SearchIndex; 256],
    pub break_array: [u8; 256],
    pub heuristic_array: Vec<i32>,
}

/// Whether a catalog holds only pieces with identifiers and colours in range.
pub open spec fn valid_catalog(pieces: Seq<Piece>) -> bool {
    forall|j: int| 0 <= j < pieces.len() ==> (#[trigger] pieces[j]).wf()
}

/// Whether a table has one bucket per key and holds only placeable pieces.
pub open spec fn table_in_range(table: Seq<Vec<RotatedPiece>>) -> bool {
    &&& table.len() == KEY_COUNT
    &&& forall|key: int, i: int|
        0 <= key < KEY_COUNT && 0 <= i < table[key].len() ==> (#[trigger] table[key][i]).placeable()
}

/// Whether the grouped candidates have one group per key and hold only
/// placeable pieces.
pub open spec fn groups_in_range(groups: Seq<Vec<RotatedPieceWithLeftBottom>>) -> bool {
    &&& groups.len() == KEY_COUNT
    &&& forall|key: int, i: int|
        0 <= key < KEY_COUNT && 0 <= i < groups[key].len() ==> (
        #[trigger] groups[key][i]).rotated_piece.placeable()
}

/// Whether `table` is one that the given pieces, role and selection lead
/// to: each bucket holds the candidates that answer its key, ordered by
/// break tier and by score under some jitter.
pub open spec fn is_table_of(
    table: Seq<Vec<RotatedPiece>>,
    pieces: Seq<Piece>,
    role: PieceRole,
    allow_breaks: bool,
    selection: Selection,
) -> bool {
    &&& table.len() == KEY_COUNT
    &&& forall|key: int|
        0 <= key < KEY_COUNT ==> is_shuffle_of(
            (#[trigger] table[key])@,
            with_key(source_candidates(pieces, role, allow_breaks, selection), key),
        )
}

/// Whether rotated piece `entry`, found under `key`, is a candidate of some
/// piece of the catalog that plays `role`: its break count is the number of
/// mismatches against the colours of the key, at most one, zero where breaks
/// are not allowed, and never on a frame-reserved colour.
pub open spec fn entry_from_catalog(
    entry: RotatedPiece,
    key: int,
    pieces: Seq<Piece>,
    role: PieceRole,
    allow_breaks: bool,
    selection: Selection,
) -> bool {
    exists|c: RotatedPieceWithLeftBottom|
        {
            &&& c.rotated_piece == entry
            &&& c.left_bottom == key
            &&& #[trigger] from_catalog(c, pieces, role, allow_breaks)
            &&& selection.spec_takes(c)
        }
}

/// Whether every entry of `table` is a candidate of the catalog.
pub open spec fn table_from_catalog(
    table: Seq<Vec<RotatedPiece>>,
    pieces: Seq<Piece>,
    role: PieceRole,
    allow_breaks: bool,
    selection: Selection,
) -> bool {
    forall|key: int, i: int|
        0 <= key < table.len() && 0 <= i < table[key].len() ==> entry_from_catalog(
            #[trigger] table[key][i],
            key,
            pieces,
            role,
            allow_breaks,
            selection,
        )
}

/// A candidate of a well-formed piece is placeable.
pub proof fn lemma_candidate_placeable(
    c: RotatedPieceWithLeftBottom,
    pieces: Seq<Piece>,
    role: PieceRole,
    allow_breaks: bool,
)
    requires
        valid_catalog(pieces),
        from_catalog(c, pieces, role, allow_breaks),
    ensures
        c.rotated_piece.placeable(),
        c.rotated_piece.break_count <= 1,
        !allow_breaks ==> c.rotated_piece.break_count == 0,
        c.left_bottom < KEY_COUNT,
{
    let j = choose|j: int|
        0 <= j < pieces.len() && role.spec_covers(pieces[j]) && #[trigger] is_candidate_of(
            c,
            pieces[j],
            allow_breaks,
        );
    assert(pieces[j].wf());
}

/// Ordering the groups of placeable candidates gives a table of placeable
/// pieces.
pub proof fn lemma_sorted_array_in_range(
    table: Seq<Vec<RotatedPiece>>,
    groups: Seq<Vec<RotatedPieceWithLeftBottom>>,
)
    requires
        is_sorted_array_of(table, groups),
        groups_in_range(groups),
    ensures
        table_in_range(table),
{
    assert forall|key: int, i: int|
        0 <= key < KEY_COUNT && 0 <= i < table[key].len() implies (
    #[trigger] table[key][i]).placeable() by {
        let bucket = table[key]@;
        let group = groups[key]@;
        assert(is_shuffle_of(bucket, group));
        let jitter = choose|jitter: Seq<i32>|
            {
                &&& jitter.len() == group.len()
                &&& forall|i: int| 0 <= i < jitter.len() ==> 0 <= #[trigger] jitter[i] < JITTER_BOUND
                &&& #[trigger] is_ordering_of(bucket, group, jitter)
            };
        lemma_ordering_keeps_tiers(bucket, group, jitter);
        assert(pieces_of(group).contains(bucket[i]));
        let k = choose|k: int| 0 <= k < group.len() && pieces_of(group)[k] == bucket[i];
        assert(groups[key][k].rotated_piece.placeable());
    }
}

/// Builds the table of the candidates that the pieces of `role` have under
/// `selection`.
pub fn build_table(
    pieces: &Vec<Piece>,
    role: PieceRole,
    allow_breaks: bool,
    selection: Selection,
    rng: &mut ThreadRng,
) -> (table: Vec<Vec<RotatedPiece>>)
    requires
        valid_catalog(pieces@),
    ensures
        is_table_of(table@, pieces@, role, allow_breaks, selection),
        table_from_catalog(table@, pieces@, role, allow_breaks, selection),
        table_in_range(table@),
{
    let groups = build_groups(pieces, role, allow_breaks, selection);
    let table = create_sorted_array(&groups, rng);
    proof {
        let cands = source_candidates(pieces@, role, allow_breaks, selection);
        assert forall|key: int, i: int|
            0 <= key < table.len() && 0 <= i < table[key].len() implies entry_from_catalog(
            #[trigger] table[key][i],
            key,
            pieces@,
            role,
            allow_breaks,
            selection,
        ) && table[key][i].placeable() by {
            let bucket = table[key]@;
            let group = groups[key]@;
            assert(is_shuffle_of(bucket, group));
            let jitter = choose|jitter: Seq<i32>|
                {
                    &&& jitter.len() == group.len()
                    &&& forall|i: int|
                        0 <= i < jitter.len() ==> 0 <= #[trigger] jitter[i] < JITTER_BOUND
                    &&& #[trigger] is_ordering_of(bucket, group, jitter)
                };
            lemma_ordering_keeps_tiers(bucket, group, jitter);
            assert(pieces_of(group).contains(bucket[i]));
            let k = choose|k: int| 0 <= k < group.len() && pieces_of(group)[k] == bucket[i];
            let c = group[k];
            assert(groups[key][k].rotated_piece.placeable());
            assert(c.rotated_piece == bucket[i]);
            lemma_with_key_members(cands, key, k);
            let m = choose|m: int| 0 <= m < cands.len() && cands[m] == c;
            assert(from_catalog(cands[m], pieces@, role, allow_breaks) && selection.spec_takes(
                cands[m],
            ));
            assert(c.left_bottom == key);
        }
    }
    table
}

/// Collects and groups the candidates that the pieces of `role` have under
/// `selection`.
pub fn build_groups(
    pieces: &Vec<Piece>,
    role: PieceRole,
    allow_breaks: bool,
    selection: Selection,
) -> (groups: Vec<Vec<RotatedPieceWithLeftBottom>>)
    requires
        valid_catalog(pieces@),
    ensures
        groups.len() == KEY_COUNT,
        forall|key: int|
            0 <= key < KEY_COUNT ==> (#[trigger] groups[key])@ == with_key(
                source_candidates(pieces@, role, allow_breaks, selection),
                key,
            ),
        groups_in_range(groups@),
        all_from_catalog(
            source_candidates(pieces@, role, allow_breaks, selection),
            pieces@,
            role,
            allow_breaks,
            selection,
        ),
{
    let cands = collect_candidates(pieces, role, allow_breaks, selection);
    proof {
        assert forall|i: int| 0 <= i < cands.len() implies (#[trigger] cands[i]).left_bottom
            < KEY_COUNT by {
            lemma_candidate_placeable(cands[i], pieces@, role, allow_breaks);
        }
    }
    let ghost all = cands@;
    let groups = group_by_left_bottom(cands);
    proof {
        assert forall|key: int, i: int|
            0 <= key < KEY_COUNT && 0 <= i < groups[key].len() implies (
        #[trigger] groups[key][i]).rotated_piece.placeable() by {
            lemma_with_key_members(all, key, i);
            let m = choose|m: int| 0 <= m < all.len() && all[m] == groups[key][i];
            lemma_candidate_placeable(all[m], pieces@, role, allow_breaks);
        }
    }
    groups
}

/// How the table of a category is made: from the pieces of which role,
/// with or without breaks, and which of their candidates.
pub open spec fn recipe(category: PieceCategory) -> (PieceRole, bool, Selection) {
    match category {
        PieceCategory::NoPieces => (PieceRole::Corner, false, Selection::Any),
        PieceCategory::Corners => (PieceRole::Corner, false, Selection::Any),
        PieceCategory::LeftSides => (PieceRole::Side, false, Selection::Rotation(1)),
        PieceCategory::RightSidesWithBreaks => (PieceRole::Side, true, Selection::Rotation(3)),
        PieceCategory::RightSidesWithoutBreaks => (PieceRole::Side, false, Selection::Rotation(3)),
        PieceCategory::TopSides => (PieceRole::Side, true, Selection::Rotation(2)),
        PieceCategory::MiddlesWithBreak => (PieceRole::Middle, true, Selection::Any),
        PieceCategory::MiddlesNoBreak => (PieceRole::Middle, false, Selection::Any),
        PieceCategory::SouthStart => (
            PieceRole::Middle,
            false,
            Selection::TopSide(SOUTH_START_TOP_SIDE),
        ),
        PieceCategory::WestStart => (
            PieceRole::Middle,
            false,
            Selection::RightSide(WEST_START_RIGHT_SIDE),
        ),
        PieceCategory::Start => (PieceRole::Start, false, Selection::Rotation(START_ROTATION)),
    }
}

/// The table that governs the cell at `row` and `col`, visited at `step`,
/// where breaks are allowed from step `first_break` on.
pub open spec fn category_for(row: int, col: int, step: int, first_break: int) -> PieceCategory {
    let middle = if step < first_break {
        PieceCategory::MiddlesNoBreak
    } else {
        PieceCategory::MiddlesWithBreak
    };
    if row == 15 {
        if col == 15 || col == 0 {
            PieceCategory::Corners
        } else {
            PieceCategory::TopSides
        }
    } else if row == 0 {
        PieceCategory::NoPieces
    } else if col == 15 {
        if step < first_break {
            PieceCategory::RightSidesWithoutBreaks
        } else {
            PieceCategory::RightSidesWithBreaks
        }
    } else if col == 0 {
        PieceCategory::LeftSides
    } else if row == 7 && col == 7 {
        PieceCategory::Start
    } else if row == 7 && col == 6 {
        PieceCategory::WestStart
    } else if row == 6 && col == 7 {
        PieceCategory::SouthStart
    } else {
        middle
    }
}

/// Picks the table that governs a cell.
pub fn lookup_category(row: usize, col: usize, step: usize, first_break: usize) -> (lookup:
    PieceCategory)
    ensures
        lookup == category_for(row as int, col as int, step as int, first_break as int),
{
    if row == 15 {
        if col == 15 || col == 0 {
            PieceCategory::Corners
        } else {
            PieceCategory::TopSides
        }
    } else if row == 0 {
        PieceCategory::NoPieces
    } else if col == 15 {
        if step < first_break {
            PieceCategory::RightSidesWithoutBreaks
        } else {
            PieceCategory::RightSidesWithBreaks
        }
    } else if col == 0 {
        PieceCategory::LeftSides
    } else if row == 7 {
        if col == 7 {
            PieceCategory::Start
        } else if col == 6 {
            PieceCategory::WestStart
        } else if step < first_break {
            PieceCategory::MiddlesNoBreak
        } else {
            PieceCategory::MiddlesWithBreak
        }
    } else if row == 6 {
        if col == 7 {
            PieceCategory::SouthStart
        } else if step < first_break {
            PieceCategory::MiddlesNoBreak
        } else {
            PieceCategory::MiddlesWithBreak
        }
    } else if step < first_break {
        PieceCategory::MiddlesNoBreak
    } else {
        PieceCategory::MiddlesWithBreak
    }
}

/// Whether `lookup` assigns to the cell of every step the table that
/// `category_for` gives it.
pub open spec fn is_master_lookup(
    lookup: Seq<PieceCategory>,
    order: Seq<SearchIndex>,
    first_break: int,
) -> bool {
    forall|step: int|
        0 <= step < 256 ==> lookup[(#[trigger] order[step]).cell()] == category_for(
            order[step].row as int,
            order[step].column as int,
            step,
            first_break,
        )
}

/// Assigns a table to the cell of every step of the walk.
#[verifier::rlimit(40)]
pub fn build_master_lookup(order: &[SearchIndex; 256], first_break: usize) -> (lookup: [PieceCategory; 256])
    requires
        valid_board_order(order@),
    ensures
        is_master_lookup(lookup@, order@, first_break as int),
{
    let mut lookup = [PieceCategory::NoPieces;256];
    let mut step: usize = 0;
    while step < 256
        invariant
            step <= 256,
            forall|s: int| 0 <= s < 256 ==> (#[trigger] order[s]).on_board(),
            forall|s: int, t: int|
                0 <= s < t < 256 ==> (#[trigger] order[s]).cell() != (#[trigger] order[t]).cell(),
            forall|s: int|
                0 <= s < step ==> lookup[(#[trigger] order[s]).cell()] == category_for(
                    order[s].row as int,
                    order[s].column as int,
                    s,
                    first_break as int,
                ),
        decreases 256 - step,
    {
        let index = order[step];
        let row = index.row as usize;
        let col = index.column as usize;
        let cell = cell_of(index);
        lookup[cell] = lookup_category(row, col, step, first_break);
        proof {
            assert forall|s: int| 0 <= s < step + 1 implies lookup[(#[trigger] order[s]).cell()]
                == category_for(
                order[s].row as int,
                order[s].column as int,
                s,
                first_break as int,
            ) by {
                if s < step {
                    assert(order[s].cell() != order[step as int].cell());
                }
            }
        }
        step += 1;
    }
    lookup
}

impl SolverData {
    /// The table of a category.
    pub open spec fn table(&self, category: PieceCategory) -> Seq<Vec<RotatedPiece>> {
        match category {
            PieceCategory::NoPieces => self.no_pieces@,
            PieceCategory::Corners => self.corners@,
            PieceCategory::LeftSides => self.left_sides@,
            PieceCategory::RightSidesWithBreaks => self.right_sides_with_breaks@,
            PieceCategory::RightSidesWithoutBreaks => self.right_sides_without_breaks@,
            PieceCategory::TopSides => self.top_sides@,
            PieceCategory::MiddlesWithBreak => self.middles_with_break@,
            PieceCategory::MiddlesNoBreak => self.middles_no_break@,
            PieceCategory::SouthStart => self.south_start@,
            PieceCategory::WestStart => self.west_start@,
            PieceCategory::Start => self.start@,
        }
    }

    /// The table of a category.
    pub fn get_pieces(&self, category: PieceCategory) -> (table: &[Vec<RotatedPiece>])
        ensures
            table@ == self.table(category),
    {
        match category {
            PieceCategory::NoPieces => self.no_pieces.as_slice(),
            PieceCategory::Corners => self.corners.as_slice(),
            PieceCategory::LeftSides => self.left_sides.as_slice(),
            PieceCategory::RightSidesWithBreaks => self.right_sides_with_breaks.as_slice(),
            PieceCategory::RightSidesWithoutBreaks => self.right_sides_without_breaks.as_slice(),
            PieceCategory::TopSides => self.top_sides.as_slice(),
            PieceCategory::MiddlesWithBreak => self.middles_with_break.as_slice(),
            PieceCategory::MiddlesNoBreak => self.middles_no_break.as_slice(),
            PieceCategory::SouthStart => self.south_start.as_slice(),
            PieceCategory::WestStart => self.west_start.as_slice(),
            PieceCategory::Start => self.start.as_slice(),
        }
    }

    /// What the search relies on: every table but the empty one has a bucket
    /// for each key and holds placeable pieces only, the walk is valid, every
    /// cell above the bottom row is governed by a table, the break budget
    /// never shrinks, and the heuristic floor has a value from 0 to 255 for
    /// each step.
    pub open spec fn wf(&self) -> bool {
        &&& forall|category: PieceCategory|
            category != PieceCategory::NoPieces ==> table_in_range(#[trigger] self.table(category))
        &&& groups_in_range(self.bottom_side_pieces_rotated@)
        &&& valid_board_order(self.board_search_sequence@)
        &&& forall|step: int|
            0 <= step < 256 && (#[trigger] self.board_search_sequence[step]).row >= 1
                ==> self.master_piece_lookup[self.board_search_sequence[step].cell()]
                != PieceCategory::NoPieces
        &&& forall|i: int, j: int|
            0 <= i <= j < 256 ==> #[trigger] self.break_array[i] <= #[trigger] self.break_array[j]
        &&& self.heuristic_array.len() == 256
        &&& forall|i: int| 0 <= i < 256 ==> 0 <= #[trigger] self.heuristic_array[i] <= 255
    }

    /// Whether the data is what `prepare_pieces_and_heuristics` makes of
    /// the catalog `pieces` and the walk `order`: each table after its
    /// recipe, the bottom-row candidates grouped but not yet ordered, the
    /// table of each cell, and the two standard schedules.
    pub open spec fn is_prepared_from(&self, pieces: Seq<Piece>, order: Seq<SearchIndex>) -> bool {
        &&& self.no_pieces@.len() == 0
        &&& forall|category: PieceCategory|
            category != PieceCategory::NoPieces ==> {
                &&& is_table_of(
                    #[trigger] self.table(category),
                    pieces,
                    recipe(category).0,
                    recipe(category).1,
                    recipe(category).2,
                )
                &&& table_from_catalog(
                    self.table(category),
                    pieces,
                    recipe(category).0,
                    recipe(category).1,
                    recipe(category).2,
                )
            }
        &&& self.bottom_side_pieces_rotated@.len() == KEY_COUNT
        &&& forall|key: int|
            0 <= key < KEY_COUNT ==> (#[trigger] self.bottom_side_pieces_rotated[key])@
                == with_key(
                source_candidates(pieces, PieceRole::Side, false, Selection::Rotation(0)),
                key,
            )
        &&& self.board_search_sequence@ == order
        &&& is_master_lookup(self.master_piece_lookup@, order, 201)
        &&& forall|i: int|
            0 <= i < 256 ==> #[trigger] self.break_array[i] == breaks_allowed_upto(
                BREAK_INDEXES_ALLOWED@,
                i,
            )
        &&& self.heuristic_array.len() == 256
        &&& forall|i: int| 0 <= i < 256 ==> #[trigger] self.heuristic_array[i] == heuristic_floor(i)
    }
}

/// Whether rotated piece `entry`, found under `key`, is `piece` in the
/// rotation that it names: it shows the two outward colours of the turned
/// piece, and its break count is the number of the two facing edges of the
/// turned piece that differ from the colours of the key, which is at most
/// one, zero where breaks are not allowed, and never counts an edge of a
/// frame-reserved colour.
pub open spec fn entry_is_piece(
    entry: RotatedPiece,
    key: int,
    piece: Piece,
    allow_breaks: bool,
) -> bool {
    let turned = piece.spec_rotated(entry.rotations);
    let breaks = mismatches(turned.left_side, turned.bottom_side, key / 23, key % 23);
    &&& entry.piece_number == piece.piece_number
    &&& entry.top_side == turned.top_side
    &&& entry.right_side == turned.right_side
    &&& entry.break_count == breaks
    &&& breaks <= 1
    &&& !allow_breaks ==> breaks == 0
    &&& side_mismatches(turned.left_side, turned.bottom_side, key / 23, key % 23) == 0
}

/// Every entry of every prepared table is a piece of the catalog in some
/// rotation, with the number of mismatches against its key as its break
/// count: no entry has two breaks, none has a break in a table that allows
/// none, and none has a break on a frame-reserved colour.
pub proof fn lemma_prepared_entry(
    data: &SolverData,
    pieces: Seq<Piece>,
    order: Seq<SearchIndex>,
    category: PieceCategory,
    key: int,
    i: int,
)
    requires
        data.is_prepared_from(pieces, order),
        category != PieceCategory::NoPieces,
        0 <= key < KEY_COUNT,
        0 <= i < data.table(category)[key].len(),
    ensures
        exists|j: int|
            0 <= j < pieces.len() && recipe(category).0.spec_covers(pieces[j])
                && #[trigger] entry_is_piece(
                data.table(category)[key][i],
                key,
                pieces[j],
                recipe(category).1,
            ),
{
    let table = data.table(category);
    let role = recipe(category).0;
    let allow_breaks = recipe(category).1;
    let selection = recipe(category).2;
    assert(is_table_of(table, pieces, role, allow_breaks, selection));
    assert(table_from_catalog(table, pieces, role, allow_breaks, selection));
    assert(entry_from_catalog(table[key][i], key, pieces, role, allow_breaks, selection));
    let c = choose|c: RotatedPieceWithLeftBottom|
        {
            &&& c.rotated_piece == table[key][i]
            &&& c.left_bottom == key
            &&& #[trigger] from_catalog(c, pieces, role, allow_breaks)
            &&& selection.spec_takes(c)
        };
    let j = choose|j: int|
        0 <= j < pieces.len() && role.spec_covers(pieces[j]) && #[trigger] is_candidate_of(
            c,
            pieces[j],
            allow_breaks,
        );
    assert(entry_is_piece(table[key][i], key, pieces[j], allow_breaks));
}

/// Builds the tables and schedules of one outer iteration from the catalog
/// and the walk, with a fresh random order within each bucket.
pub fn prepare_pieces_and_heuristics(
    board_pieces: &Vec<Piece>,
    board_search_sequence: [SearchIndex; 256],
) -> (data: SolverData)
    requires
        valid_catalog(board_pieces@),
        valid_board_order(board_search_sequence@),
    ensures
        data.wf(),
        data.is_prepared_from(board_pieces@, board_search_sequence@),
{
    let mut rng = thread_rng();

    let no_pieces: Vec<Vec<RotatedPiece>> = Vec::new();
    let corners = build_table(board_pieces, PieceRole::Corner, false, Selection::Any, &mut rng);
    let left_sides = build_table(
        board_pieces,
        PieceRole::Side,
        false,
        Selection::Rotation(1),
        &mut rng,
    );
    let top_sides = build_table(
        board_pieces,
        PieceRole::Side,
        true,
        Selection::Rotation(2),
        &mut rng,
    );
    let right_sides_with_breaks = build_table(
        board_pieces,
        PieceRole::Side,
        true,
        Selection::Rotation(3),
        &mut rng,
    );
    let right_sides_without_breaks = build_table(
        board_pieces,
        PieceRole::Side,
        false,
        Selection::Rotation(3),
        &mut rng,
    );
    let middles_with_break = build_table(
        board_pieces,
        PieceRole::Middle,
        true,
        Selection::Any,
        &mut rng,
    );
    let middles_no_break = build_table(
        board_pieces,
        PieceRole::Middle,
        false,
        Selection::Any,
        &mut rng,
    );
    let south_start = build_table(
        board_pieces,
        PieceRole::Middle,
        false,
        Selection::TopSide(SOUTH_START_TOP_SIDE),
        &mut rng,
    );
    let west_start = build_table(
        board_pieces,
        PieceRole::Middle,
        false,
        Selection::RightSide(WEST_START_RIGHT_SIDE),
        &mut rng,
    );
    let start = build_table(
        board_pieces,
        PieceRole::Start,
        false,
        Selection::Rotation(START_ROTATION),
        &mut rng,
    );
    let bottom_side_pieces_rotated = build_groups(
        board_pieces,
        PieceRole::Side,
        false,
        Selection::Rotation(0),
    );

    let break_array = get_break_array();
    let master_piece_lookup = build_master_lookup(&board_search_sequence, first_break_index());
    let heuristic_array = get_heuristic_array();

    let data = SolverData {
        no_pieces,
        corners,
        left_sides,
        right_sides_with_breaks,
        right_sides_without_breaks,
        top_sides,
        middles_with_break,
        middles_no_break,
        south_start,
        west_start,
        start,
        bottom_side_pieces_rotated,
        master_piece_lookup,
        board_search_sequence,
        break_array,
        heuristic_array,
    };
    proof {
        assert forall|i: int, j: int| 0 <= i <= j < 256 implies #[trigger] data.break_array[i]
            <= #[trigger] data.break_array[j] by {
            lemma_break_schedule_monotone(BREAK_INDEXES_ALLOWED@, i, j);
        }
        assert forall|i: int| 0 <= i < 256 implies 0 <= #[trigger] data.heuristic_array[i]
            <= 255 by {
            lemma_heuristic_floor_shape(i, i);
        }
    }
    data
}

/// Checks at run time that a catalog holds only pieces with identifiers and
/// colours in range.
pub fn is_valid_catalog(pieces: &Vec<Piece>) -> (valid: bool)
    ensures
        valid == valid_catalog(pieces@),
{
    let mut j: usize = 0;
    while j < pieces.len()
        invariant
            j <= pieces.len(),
            forall|k: int| 0 <= k < j ==> (#[trigger] pieces[k]).wf(),
        decreases pieces.len() - j,
    {
        let piece = pieces[j];
        if !(1 <= piece.piece_number && piece.piece_number <= MAX_PIECE_NUMBER && piece.top_side
            <= MAX_COLOR && piece.right_side <= MAX_COLOR && piece.bottom_side <= MAX_COLOR
            && piece.left_side <= MAX_COLOR) {
            assert(!pieces[j as int].wf());
            return false;
        }
        j += 1;
    }
    true
}

/// Checks at run time that a table has one bucket per key and holds only
/// placeable pieces.
pub fn is_table_in_range(table: &Vec<Vec<RotatedPiece>>) -> (valid: bool)
    ensures
        valid == table_in_range(table@),
{
    if table.len() != KEY_COUNT {
        return false;
    }
    let mut key: usize = 0;
    while key < KEY_COUNT
        invariant
            key <= KEY_COUNT,
            table.len() == KEY_COUNT,
            forall|k: int, i: int|
                0 <= k < key && 0 <= i < table[k].len() ==> (#[trigger] table[k][i]).placeable(),
        decreases KEY_COUNT - key,
    {
        let bucket = &table[key];
        let mut i: usize = 0;
        while i < bucket.len()
            invariant
                i <= bucket.len(),
                key < KEY_COUNT,
                table.len() == KEY_COUNT,
                bucket == table[key as int],
                forall|m: int| 0 <= m < i ==> (#[trigger] table[key as int][m]).placeable(),
            decreases bucket.len() - i,
        {
            if !bucket[i].is_placeable() {
                assert(!table[key as int][i as int].placeable());
                return false;
            }
            i += 1;
        }
        key += 1;
    }
    true
}

/// Checks at run time that grouped candidates have one group per key and
/// hold only placeable pieces.
pub fn are_groups_in_range(groups: &Vec<Vec<RotatedPieceWithLeftBottom>>) -> (valid: bool)
    ensures
        valid == groups_in_range(groups@),
{
    if groups.len() != KEY_COUNT {
        return false;
    }
    let mut key: usize = 0;
    while key < KEY_COUNT
        invariant
            key <= KEY_COUNT,
            groups.len() == KEY_COUNT,
            forall|k: int, i: int|
                0 <= k < key && 0 <= i < groups[k].len() ==> (
                #[trigger] groups[k][i]).rotated_piece.placeable(),
        decreases KEY_COUNT - key,
    {
        let group = &groups[key];
        let mut i: usize = 0;
        while i < group.len()
            invariant
                i <= group.len(),
                key < KEY_COUNT,
                groups.len() == KEY_COUNT,
                group == groups[key as int],
                forall|m: int|
                    0 <= m < i ==> (#[trigger] groups[key as int][m]).rotated_piece.placeable(),
            decreases group.len() - i,
        {
            if !group[i].rotated_piece.is_placeable() {
                assert(!groups[key as int][i as int].rotated_piece.placeable());
                return false;
            }
            i += 1;
        }
        key += 1;
    }
    true
}

impl SolverData {
    /// Checks at run time what the search relies on.
    pub fn is_well_formed(&self) -> (valid: bool)
        ensures
            valid == self.wf(),
    {
        if !(is_table_in_range(&self.corners) && is_table_in_range(&self.left_sides)
            && is_table_in_range(&self.right_sides_with_breaks) && is_table_in_range(
            &self.right_sides_without_breaks,
        ) && is_table_in_range(&self.top_sides) && is_table_in_range(&self.middles_with_break)
            && is_table_in_range(&self.middles_no_break) && is_table_in_range(&self.south_start)
            && is_table_in_range(&self.west_start) && is_table_in_range(&self.start)) {
            proof {
                assert(!table_in_range(self.table(PieceCategory::Corners)) || !table_in_range(
                    self.table(PieceCategory::LeftSides),
                ) || !table_in_range(self.table(PieceCategory::RightSidesWithBreaks))
                    || !table_in_range(self.table(PieceCategory::RightSidesWithoutBreaks))
                    || !table_in_range(self.table(PieceCategory::TopSides)) || !table_in_range(
                    self.table(PieceCategory::MiddlesWithBreak),
                ) || !table_in_range(self.table(PieceCategory::MiddlesNoBreak))
                    || !table_in_range(self.table(PieceCategory::SouthStart)) || !table_in_range(
                    self.table(PieceCategory::WestStart),
                ) || !table_in_range(self.table(PieceCategory::Start)));
            }
            return false;
        }
        if !are_groups_in_range(&self.bottom_side_pieces_rotated) {
            return false;
        }
        if !is_valid_board_order(&self.board_search_sequence) {
            return false;
        }
        if self.heuristic_array.len() != 256 {
            return false;
        }
        let mut step: usize = 0;
        while step < 256
            invariant
                step <= 256,
                valid_board_order(self.board_search_sequence@),
                self.heuristic_array.len() == 256,
                forall|s: int|
                    0 <= s < step && (#[trigger] self.board_search_sequence[s]).row >= 1
                        ==> self.master_piece_lookup[self.board_search_sequence[s].cell()]
                        != PieceCategory::NoPieces,
                forall|i: int, j: int|
                    0 <= i <= j < step ==> #[trigger] self.break_array[i]
                        <= #[trigger] self.break_array[j],
                forall|i: int| 0 <= i < step ==> 0 <= #[trigger] self.heuristic_array[i] <= 255,
            decreases 256 - step,
        {
            let index = self.board_search_sequence[step];
            assert(self.board_search_sequence[step as int].on_board());
            if index.row >= 1 {
                let cell = cell_of(index);
                match self.master_piece_lookup[cell] {
                    PieceCategory::NoPieces => {
                        return false;
                    },
                    _ => {},
                }
            }
            if step > 0 && self.break_array[step - 1] > self.break_array[step] {
                return false;
            }
            let floor = self.heuristic_array[step];
            if floor < 0 || floor > 255 {
                assert(!(0 <= self.heuristic_array[step as int] <= 255));
                return false;
            }
            proof {
                assert forall|i: int, j: int| 0 <= i <= j < step + 1 implies #[trigger] self.break_array[i]
                    <= #[trigger] self.break_array[j] by {
                    if j == step && i < step {
                        assert(self.break_array[i] <= self.break_array[step - 1]);
                    }
                }
            }
            step += 1;
        }
        true
    }
}

} // verus!
