//! The search as mathematics: the state of an attempt, what one node visit
//! makes of it, and what holds of it at every point.

use vstd::prelude::*;
use crate::bits::{
    bit_is_set,
    lemma_with_bit_cleared,
    lemma_with_bit_set,
    with_bit_cleared,
    with_bit_set,
};
use crate::board_order::visited_before;
use crate::config::{KEY_COUNT, MAX_HEURISTIC_INDEX};
use crate::ordering::{
    is_ordering_of,
    is_shuffle_of,
    lemma_ordering_keeps_tiers,
    pieces_of,
    JITTER_BOUND,
};
use crate::solve_puzzle::{SearchEvent, SearchLimits};
use crate::solver_data::{
    entry_from_catalog,
    recipe,
    table_from_catalog,
    table_in_range,
    PieceCategory,
    SolverData,
};
use crate::structs::{Piece, RotatedPiece};
use crate::tables::{
    from_catalog,
    is_sorted_array_of,
    lemma_source_candidates_from_catalog,
    lemma_with_key_members,
    source_candidates,
    with_key,
    PieceRole,
    Selection,
};

verus! {

/// The state of one attempt as mathematical values.
pub struct SearchView {
    pub board: Seq<RotatedPiece>,
    pub used: Seq<u64>,
    pub heuristic: Seq<u16>,
    pub next_try: Seq<usize>,
    pub breaks: Seq<u8>,
    pub counts: Seq<u64>,
    pub bottom_sides: Seq<Vec<RotatedPiece>>,
    pub solve_index: int,
    pub max_solve_index: int,
    pub node_count: int,
}

/// Whether some cell of `board` holds the piece `id`.
pub open spec fn lies_on(board: Seq<RotatedPiece>, id: int) -> bool {
    exists|cell: int| 0 <= cell < board.len() && (#[trigger] board[cell]).piece_number == id
}

/// Where the scan that starts at position `i` of `cands` ends: at the first
/// candidate that is not in use, if its break count is within `allowed` and
/// it does not fall below the heuristic floor; nowhere if the scan first
/// meets a candidate with more breaks than allowed, meets the floor, or runs
/// off the list.
pub open spec fn scan_from(
    cands: Seq<RotatedPiece>,
    i: int,
    used: Seq<u64>,
    allowed: int,
    floor_applies: bool,
    placed: int,
    floor: int,
) -> Option<int>
    decreases cands.len() - i,
{
    if i < 0 || i >= cands.len() {
        None
    } else if cands[i].break_count > allowed {
        None
    } else if bit_is_set(used, cands[i].piece_number as int) {
        scan_from(cands, i + 1, used, allowed, floor_applies, placed, floor)
    } else if floor_applies && placed + cands[i].heuristic_side_count < floor {
        None
    } else {
        Some(i)
    }
}

/// Whether the scan passes over candidate `c`: within the break budget, but
/// in use.
pub open spec fn passed_over(c: RotatedPiece, used: Seq<u64>, allowed: int) -> bool {
    c.break_count <= allowed && bit_is_set(used, c.piece_number as int)
}

/// Whether candidate `c` is admissible: within the break budget, not in use,
/// and not below the heuristic floor.
pub open spec fn admissible(
    c: RotatedPiece,
    used: Seq<u64>,
    allowed: int,
    floor_applies: bool,
    placed: int,
    floor: int,
) -> bool {
    &&& c.break_count <= allowed
    &&& !bit_is_set(used, c.piece_number as int)
    &&& !(floor_applies && placed + c.heuristic_side_count < floor)
}

/// The scan ends at `found` exactly if `found` is admissible and everything
/// from the starting position up to it was passed over; it ends nowhere
/// exactly if no position is such.
pub proof fn lemma_scan_result(
    cands: Seq<RotatedPiece>,
    from: int,
    used: Seq<u64>,
    allowed: int,
    floor_applies: bool,
    placed: int,
    floor: int,
    found: int,
)
    requires
        0 <= from,
    ensures
        scan_from(cands, from, used, allowed, floor_applies, placed, floor) == Some(found) <==> {
            &&& from <= found < cands.len()
            &&& admissible(cands[found], used, allowed, floor_applies, placed, floor)
            &&& forall|k: int| from <= k < found ==> passed_over(#[trigger] cands[k], used, allowed)
        },
    decreases cands.len() - from,
{
    if from < cands.len() && passed_over(cands[from], used, allowed) {
        lemma_scan_result(cands, from + 1, used, allowed, floor_applies, placed, floor, found);
        if from + 1 <= found < cands.len() && admissible(
            cands[found],
            used,
            allowed,
            floor_applies,
            placed,
            floor,
        ) && (forall|k: int| from <= k < found ==> passed_over(#[trigger] cands[k], used, allowed)) {
            assert(forall|k: int|
                from + 1 <= k < found ==> passed_over(#[trigger] cands[k], used, allowed));
        }
    } else if from < cands.len() {
        if from < found < cands.len() && (forall|k: int|
            from <= k < found ==> passed_over(#[trigger] cands[k], used, allowed)) {
            assert(passed_over(cands[from], used, allowed));
        }
    }
}

/// The candidate list of the cell that is visited at `step`: for the bottom
/// row the bottom-side candidates, or the corners at its end, under the
/// colour that the left neighbour shows; elsewhere the table that governs
/// the cell, under the colours that the left neighbour and the cell below
/// show.
pub open spec fn list_for(
    board: Seq<RotatedPiece>,
    bottom_sides: Seq<Vec<RotatedPiece>>,
    data: &SolverData,
    step: int,
) -> Seq<RotatedPiece> {
    let index = data.board_search_sequence[step];
    let row = index.row as int;
    let col = index.column as int;
    if row == 0 {
        let key = board[col - 1].right_side * 23;
        if col < 15 {
            bottom_sides[key]@
        } else {
            data.corners[key]@
        }
    } else {
        let left_side = if col == 0 {
            0
        } else {
            board[row * 16 + (col - 1)].right_side as int
        };
        let key = left_side * 23 + board[(row - 1) * 16 + col].top_side;
        data.table(data.master_piece_lookup[row * 16 + col])[key]@
    }
}

/// The list of a cell depends on the board only through the cell to its
/// left and the cell below it.
pub proof fn lemma_list_for_neighbours(
    board: Seq<RotatedPiece>,
    other: Seq<RotatedPiece>,
    bottom_sides: Seq<Vec<RotatedPiece>>,
    data: &SolverData,
    step: int,
)
    requires
        data.wf(),
        1 <= step < 256,
        board.len() == 256,
        other.len() == 256,
        forall|earlier: int|
            0 <= earlier < step ==> board[(#[trigger] data.board_search_sequence[earlier]).cell()]
                == other[data.board_search_sequence[earlier].cell()],
    ensures
        list_for(board, bottom_sides, data, step) == list_for(other, bottom_sides, data, step),
{
    reveal(visited_before);
    let order = data.board_search_sequence@;
    let index = order[step];
    assert(index.on_board());
    assert(order[0].cell() != order[step].cell());
    if index.column > 0 {
        assert(visited_before(order, step, index.cell() - 1));
        let left = choose|earlier: int|
            0 <= earlier < step && (#[trigger] order[earlier]).cell() == index.cell() - 1;
        assert(board[order[left].cell()] == other[order[left].cell()]);
    }
    if index.row > 0 {
        assert(visited_before(order, step, index.cell() - 16));
        let below = choose|earlier: int|
            0 <= earlier < step && (#[trigger] order[earlier]).cell() == index.cell() - 16;
        assert(board[order[below].cell()] == other[order[below].cell()]);
    }
}

impl SearchView {
    /// The board position of the cell that is visited at `step`.
    pub open spec fn cell_at(data: &SolverData, step: int) -> int {
        data.board_search_sequence[step].cell()
    }

    /// The candidate list of the cell that is visited next.
    pub open spec fn candidates(self, data: &SolverData) -> Seq<RotatedPiece> {
        list_for(self.board, self.bottom_sides, data, self.solve_index)
    }

    /// Whether the piece in the cell of `step` is the candidate that the
    /// step last tried, taken from the list of that cell, and the two running
    /// sums of the step account for it: the breaks and the rare-coloured
    /// edges up to the step are those up to the step before plus those of
    /// the piece, and the edges reach the heuristic floor where it applies.
    pub open spec fn justified_at(self, data: &SolverData, step: int) -> bool {
        let list = list_for(self.board, self.bottom_sides, data, step);
        let piece = self.board[Self::cell_at(data, step)];
        &&& 1 <= self.next_try[step] <= list.len()
        &&& piece == list[self.next_try[step] - 1]
        &&& self.breaks[step] == self.breaks[step - 1] + piece.break_count
        &&& self.heuristic[step] == self.heuristic[step - 1] + piece.heuristic_side_count
        &&& step <= MAX_HEURISTIC_INDEX ==> self.heuristic[step] >= data.heuristic_array[step]
    }

    /// The breaks that the next placement may add.
    pub open spec fn breaks_allowed(self, data: &SolverData) -> int {
        data.break_array[self.solve_index] - self.breaks[self.solve_index - 1]
    }

    /// The state after the cell that is visited next has been emptied.
    pub open spec fn cleared(self, data: &SolverData) -> SearchView {
        let cell = Self::cell_at(data, self.solve_index);
        let lying = self.board[cell];
        if lying.piece_number > 0 {
            SearchView {
                board: self.board.update(cell, RotatedPiece::empty()),
                used: with_bit_cleared(self.used, lying.piece_number as int),
                ..self
            }
        } else {
            self
        }
    }

    /// Where the scan of the candidate list ends in this state.
    pub open spec fn found(self, data: &SolverData) -> Option<int> {
        scan_from(
            self.candidates(data),
            self.next_try[self.solve_index] as int,
            self.used,
            self.breaks_allowed(data),
            self.solve_index <= MAX_HEURISTIC_INDEX,
            self.heuristic[self.solve_index - 1] as int,
            data.heuristic_array[self.solve_index] as int,
        )
    }

    /// The state after candidate `i` has been placed and the step advanced.
    pub open spec fn placed(self, data: &SolverData, i: int) -> SearchView {
        let step = self.solve_index;
        let piece = self.candidates(data)[i];
        SearchView {
            board: self.board.update(Self::cell_at(data, step), piece),
            used: with_bit_set(self.used, piece.piece_number as int),
            breaks: self.breaks.update(step, (self.breaks[step - 1] + piece.break_count) as u8),
            heuristic: self.heuristic.update(
                step,
                (self.heuristic[step - 1] + piece.heuristic_side_count) as u16,
            ),
            next_try: self.next_try.update(step, (i + 1) as usize),
            solve_index: step + 1,
            ..self
        }
    }

    /// The state after the step has retreated.
    pub open spec fn retreated(self) -> SearchView {
        SearchView {
            next_try: self.next_try.update(self.solve_index, 0),
            solve_index: self.solve_index - 1,
            ..self
        }
    }

    /// The state after the cell has been emptied and either a candidate was
    /// placed or the step retreated.
    pub open spec fn moved(self, data: &SolverData) -> SearchView {
        let emptied = self.cleared(data);
        match emptied.found(data) {
            Some(i) => emptied.placed(data, i),
            None => emptied.retreated(),
        }
    }

    /// The state after the visit to the current step has been counted.
    pub open spec fn counted(self) -> SearchView {
        SearchView {
            node_count: self.node_count + 1,
            counts: self.counts.update(
                self.solve_index,
                (self.counts[self.solve_index] + 1) as u64,
            ),
            max_solve_index: if self.solve_index > self.max_solve_index {
                self.solve_index
            } else {
                self.max_solve_index
            },
            ..self
        }
    }

    /// The state one node visit later: after the move, and the count of the
    /// visit to the step that it led to, unless it led below step 1.
    pub open spec fn after_visit(self, data: &SolverData) -> SearchView {
        let next = self.moved(data);
        if next.solve_index == 0 {
            next
        } else {
            next.counted()
        }
    }

    /// The state `visits` node visits later.
    pub open spec fn after_visits(self, data: &SolverData, visits: nat) -> SearchView
        decreases visits,
    {
        if visits == 0 {
            self
        } else {
            self.after_visits(data, (visits - 1) as nat).after_visit(data)
        }
    }

    /// Whether the attempt is over: no step is left to retreat to, the board
    /// is full, or the node ceiling is passed.
    pub open spec fn is_finished(self, limits: SearchLimits) -> bool {
        self.solve_index <= 0 || self.solve_index >= 256 || self.node_count
            > limits.max_node_count
    }

    /// Whether the visit that led from `self` to `next` set a record that is
    /// to be saved.
    pub open spec fn is_record(self, next: SearchView, limits: SearchLimits) -> bool {
        next.solve_index > self.max_solve_index && next.solve_index
            >= limits.min_solve_index_to_save
    }

    /// Whether the visit that led from `self` to `next` neither set a record
    /// nor ended the attempt.
    pub open spec fn is_quiet(self, next: SearchView, limits: SearchLimits) -> bool {
        !self.is_record(next, limits) && !next.is_finished(limits)
    }

    /// Whether every piece lies in at most one cell.
    pub open spec fn pieces_distinct(self) -> bool {
        forall|a: int, b: int|
            0 <= a < 256 && 0 <= b < 256 && a != b && (#[trigger] self.board[a]).piece_number > 0
                ==> self.board[a].piece_number != (#[trigger] self.board[b]).piece_number
    }

    /// Whether the usage set holds exactly the pieces that lie on the board.
    pub open spec fn usage_matches_board(self) -> bool {
        forall|id: int|
            0 <= id < 320 ==> (#[trigger] bit_is_set(self.used, id) <==> (id >= 1 && lies_on(
                self.board,
                id,
            )))
    }

    /// What holds of the state at every point of an attempt.
    #[verifier::opaque]
    pub open spec fn wf(self, data: &SolverData) -> bool {
        &&& self.board.len() == 256
        &&& self.used.len() == 5
        &&& self.heuristic.len() == 256
        &&& self.next_try.len() == 256
        &&& self.breaks.len() == 256
        &&& self.counts.len() == 257
        &&& table_in_range(self.bottom_sides)
        &&& 0 <= self.solve_index <= self.max_solve_index <= 256
        &&& 1 <= self.max_solve_index
        &&& 1 <= self.node_count
        &&& forall|cell: int| 0 <= cell < 256 ==> (#[trigger] self.board[cell]).in_range()
        &&& forall|step: int|
            0 <= step < 256 && step < self.solve_index ==> self.board[#[trigger] Self::cell_at(
                data,
                step,
            )].piece_number > 0
        &&& forall|step: int|
            0 <= step < 256 && step > self.solve_index ==> self.board[#[trigger] Self::cell_at(
                data,
                step,
            )].piece_number == 0
        &&& forall|cell: int|
            0 <= cell < 256 && (#[trigger] self.board[cell]).piece_number == 0 ==> self.board[cell]
                == RotatedPiece::empty()
        &&& self.pieces_distinct()
        &&& self.usage_matches_board()
        &&& forall|step: int|
            0 <= step < 256 && step < self.solve_index ==> #[trigger] self.breaks[step]
                <= data.break_array[step]
        &&& forall|step: int|
            0 <= step < 256 && step < self.solve_index ==> #[trigger] self.heuristic[step] <= 4 * (
            step + 1)
        &&& forall|depth: int| 0 <= depth <= 256 ==> #[trigger] self.counts[depth] <= self.node_count
        &&& self.counts[0] == 0
        &&& self.breaks[0] == 0
        &&& self.heuristic[0] == self.board[Self::cell_at(data, 0)].heuristic_side_count
        &&& forall|step: int|
            1 <= step < 256 && step < self.solve_index ==> #[trigger] self.justified_at(data, step)
    }
}

proof fn lemma_zero_word(b: u64)
    by (bit_vector)
    ensures
        (0u64 & (1u64 << b)) == 0,
{
}

impl SearchView {
    /// The state in which an attempt starts: the first corner lies in the
    /// bottom-left cell, and the visit to step 1 has been counted.
    pub open spec fn initial(
        bottom_sides: Seq<Vec<RotatedPiece>>,
        first_corner_piece: RotatedPiece,
    ) -> SearchView {
        SearchView {
            board: Seq::new(256, |cell: int| RotatedPiece::empty()).update(0, first_corner_piece),
            used: with_bit_set(Seq::new(5, |word: int| 0u64), first_corner_piece.piece_number as int),
            heuristic: Seq::new(256, |step: int| 0u16).update(
                0,
                first_corner_piece.heuristic_side_count as u16,
            ),
            next_try: Seq::new(256, |step: int| 0usize),
            breaks: Seq::new(256, |step: int| 0u8),
            counts: Seq::new(257, |depth: int| 0u64).update(1, 1),
            bottom_sides,
            solve_index: 1,
            max_solve_index: 1,
            node_count: 1,
        }
    }

    /// The initial state is well formed.
    pub proof fn lemma_initial_wf(
        data: &SolverData,
        bottom_sides: Seq<Vec<RotatedPiece>>,
        first_corner_piece: RotatedPiece,
    )
        requires
            data.wf(),
            table_in_range(bottom_sides),
            first_corner_piece.placeable(),
        ensures
            Self::initial(bottom_sides, first_corner_piece).wf(data),
    {
        reveal(SearchView::wf);
        let v = Self::initial(bottom_sides, first_corner_piece);
        let zeros = Seq::new(5, |word: int| 0u64);
        let id = first_corner_piece.piece_number as int;
        lemma_with_bit_set(zeros, id);
        assert forall|i: int| 0 <= i < 320 implies !bit_is_set(zeros, i) by {
            lemma_zero_word((i % 64) as u64);
        }
        assert(Self::cell_at(data, 0) == 0);
        assert forall|step: int| 0 <= step < 256 && step > v.solve_index implies v.board[
            #[trigger] Self::cell_at(data, step)].piece_number == 0 by {
            assert(data.board_search_sequence[0].cell() != data.board_search_sequence[step].cell());
            assert(data.board_search_sequence[step].on_board());
        }
        assert(v.board[0].piece_number == id);
        assert(lies_on(v.board, id));
        assert forall|i: int| 0 <= i < 320 implies (#[trigger] bit_is_set(v.used, i) <==> (i >= 1
            && lies_on(v.board, i))) by {
            if i >= 1 && lies_on(v.board, i) {
                let cell = choose|cell: int|
                    0 <= cell < v.board.len() && (#[trigger] v.board[cell]).piece_number == i;
                assert(cell == 0);
            }
        }
    }

    /// A placement stays justified when neither its cell, nor the cells
    /// visited before it, nor its resumption index change.
    pub proof fn lemma_justified_kept(self, next: SearchView, data: &SolverData, step: int)
        requires
            data.wf(),
            1 <= step < 256,
            self.board.len() == 256,
            next.board.len() == 256,
            self.justified_at(data, step),
            next.bottom_sides == self.bottom_sides,
            next.next_try[step] == self.next_try[step],
            next.breaks[step] == self.breaks[step],
            next.breaks[step - 1] == self.breaks[step - 1],
            next.heuristic[step] == self.heuristic[step],
            next.heuristic[step - 1] == self.heuristic[step - 1],
            forall|earlier: int|
                0 <= earlier <= step ==> next.board[#[trigger] Self::cell_at(data, earlier)]
                    == self.board[Self::cell_at(data, earlier)],
        ensures
            next.justified_at(data, step),
    {
        assert forall|earlier: int| 0 <= earlier < step implies self.board[(
        #[trigger] data.board_search_sequence[earlier]).cell()]
            == next.board[data.board_search_sequence[earlier].cell()] by {
            assert(next.board[Self::cell_at(data, earlier)] == self.board[Self::cell_at(
                data,
                earlier,
            )]);
        }
        lemma_list_for_neighbours(self.board, next.board, self.bottom_sides, data, step);
        assert(next.board[Self::cell_at(data, step)] == self.board[Self::cell_at(data, step)]);
    }

    /// Emptying the cell that is visited next keeps the state well formed.
    pub proof fn lemma_cleared_wf(self, data: &SolverData)
        requires
            data.wf(),
            self.wf(data),
            1 <= self.solve_index < 256,
        ensures
            self.cleared(data).wf(data),
            self.cleared(data).board[Self::cell_at(data, self.solve_index)].piece_number == 0,
            self.cleared(data).solve_index == self.solve_index,
    {
        reveal(SearchView::wf);
        let cell = Self::cell_at(data, self.solve_index);
        let lying = self.board[cell];
        let next = self.cleared(data);
        assert(data.board_search_sequence[self.solve_index].on_board());
        if lying.piece_number > 0 {
            let id = lying.piece_number as int;
            lemma_with_bit_cleared(self.used, id);
            assert forall|step: int|
                0 <= step < 256 && step != self.solve_index implies next.board[
                #[trigger] Self::cell_at(data, step)] == self.board[Self::cell_at(data, step)] by {
                Self::lemma_cells_differ(data, step, self.solve_index);
            }
            assert forall|i: int| 0 <= i < 320 implies (#[trigger] bit_is_set(next.used, i) <==> (i
                >= 1 && lies_on(next.board, i))) by {
                assert(bit_is_set(self.used, i) <==> (i >= 1 && lies_on(self.board, i)));
                if i >= 1 && lies_on(next.board, i) {
                    let c = choose|c: int|
                        0 <= c < next.board.len() && (#[trigger] next.board[c]).piece_number == i;
                    assert(c != cell);
                    assert(self.board[c].piece_number == i);
                    assert(i != id);
                }
                if i != id && i >= 1 && lies_on(self.board, i) {
                    let c = choose|c: int|
                        0 <= c < self.board.len() && (#[trigger] self.board[c]).piece_number == i;
                    assert(next.board[c].piece_number == i);
                }
            }
            assert forall|step: int|
                1 <= step < 256 && step < next.solve_index implies #[trigger] next.justified_at(
                data,
                step,
            ) by {
                assert(self.justified_at(data, step));
                assert forall|earlier: int| 0 <= earlier <= step implies next.board[
                    #[trigger] Self::cell_at(data, earlier)] == self.board[Self::cell_at(
                    data,
                    earlier,
                )] by {
                    Self::lemma_cells_differ(data, earlier, self.solve_index);
                }
                self.lemma_justified_kept(next, data, step);
            }
        }
    }

    /// Two different steps visit two different cells of the board.
    pub proof fn lemma_cells_differ(data: &SolverData, s: int, t: int)
        requires
            data.wf(),
            0 <= s < 256,
            0 <= t < 256,
            s != t,
        ensures
            Self::cell_at(data, s) != Self::cell_at(data, t),
            0 <= Self::cell_at(data, s) < 256,
    {
        let order = data.board_search_sequence@;
        assert(order[s].on_board());
        if s < t {
            assert(order[s].cell() != order[t].cell());
        } else {
            assert(order[t].cell() != order[s].cell());
        }
    }

    /// Placing an admissible candidate in the emptied cell and counting the
    /// visit to the next step keeps the state well formed.
    #[verifier::rlimit(40)]
    pub proof fn lemma_placed_wf(self, data: &SolverData, i: int)
        requires
            data.wf(),
            self.wf(data),
            1 <= self.solve_index < 256,
            self.board[Self::cell_at(data, self.solve_index)].piece_number == 0,
            0 <= i < self.candidates(data).len(),
            self.candidates(data)[i].placeable(),
            self.candidates(data)[i].break_count <= self.breaks_allowed(data),
            !bit_is_set(self.used, self.candidates(data)[i].piece_number as int),
            !(self.solve_index <= MAX_HEURISTIC_INDEX && self.heuristic[self.solve_index - 1]
                + self.candidates(data)[i].heuristic_side_count
                < data.heuristic_array[self.solve_index]),
            self.node_count < u64::MAX,
            i < usize::MAX,
        ensures
            self.placed(data, i).counted().wf(data),
    {
        reveal(SearchView::wf);
        let step = self.solve_index;
        let cell = Self::cell_at(data, step);
        let piece = self.candidates(data)[i];
        let id = piece.piece_number as int;
        let next = self.placed(data, i);
        assert(data.board_search_sequence[step].on_board());
        lemma_with_bit_set(self.used, id);
        assert(!lies_on(self.board, id));
        assert forall|t: int| 0 <= t < 256 && t != step implies next.board[#[trigger] Self::cell_at(
            data,
            t,
        )] == self.board[Self::cell_at(data, t)] by {
            Self::lemma_cells_differ(data, t, step);
        }
        assert forall|a: int, b: int|
            0 <= a < 256 && 0 <= b < 256 && a != b && (#[trigger] next.board[a]).piece_number
                > 0 implies next.board[a].piece_number != (#[trigger] next.board[b]).piece_number by {
            if a == cell {
                if next.board[b].piece_number == id {
                    assert(self.board[b].piece_number == id);
                }
            } else if b == cell {
                if next.board[a].piece_number == id {
                    assert(self.board[a].piece_number == id);
                }
            } else {
                assert(self.board[a].piece_number != self.board[b].piece_number);
            }
        }
        assert(next.board[cell].piece_number == id);
        assert forall|k: int| 0 <= k < 320 implies (#[trigger] bit_is_set(next.used, k) <==> (k >= 1
            && lies_on(next.board, k))) by {
            assert(bit_is_set(self.used, k) <==> (k >= 1 && lies_on(self.board, k)));
            if k >= 1 && lies_on(next.board, k) && k != id {
                let c = choose|c: int|
                    0 <= c < next.board.len() && (#[trigger] next.board[c]).piece_number == k;
                assert(self.board[c].piece_number == k);
            }
            if k != id && k >= 1 && lies_on(self.board, k) {
                let c = choose|c: int|
                    0 <= c < self.board.len() && (#[trigger] self.board[c]).piece_number == k;
                assert(c != cell);
                assert(next.board[c].piece_number == k);
            }
        }
        assert(self.breaks[step - 1] <= data.break_array[step - 1]);
        assert(self.heuristic[step - 1] <= 4 * step);
        assert forall|t: int| 0 <= t < 256 && t < next.solve_index implies next.board[
            #[trigger] Self::cell_at(data, t)].piece_number > 0 by {
            if t < step {
                assert(self.board[Self::cell_at(data, t)].piece_number > 0);
            }
        }
        assert forall|t: int| 0 <= t < 256 && t > next.solve_index implies next.board[
            #[trigger] Self::cell_at(data, t)].piece_number == 0 by {
            assert(self.board[Self::cell_at(data, t)].piece_number == 0);
        }
        assert(next.counted().board == next.board);
        assert(next.counted().used == next.used);
        let counted = next.counted();
        assert forall|t: int|
            1 <= t < 256 && t < counted.solve_index implies #[trigger] counted.justified_at(
            data,
            t,
        ) by {
            if t < step {
                assert(self.justified_at(data, t));
                assert forall|earlier: int| 0 <= earlier <= t implies counted.board[
                    #[trigger] Self::cell_at(data, earlier)] == self.board[Self::cell_at(
                    data,
                    earlier,
                )] by {
                    Self::lemma_cells_differ(data, earlier, step);
                }
                assert(counted.next_try[t] == self.next_try[t]);
                self.lemma_justified_kept(counted, data, t);
            } else {
                assert forall|earlier: int| 0 <= earlier < step implies self.board[(
                #[trigger] data.board_search_sequence[earlier]).cell()]
                    == counted.board[data.board_search_sequence[earlier].cell()] by {
                    Self::lemma_cells_differ(data, earlier, step);
                }
                lemma_list_for_neighbours(self.board, counted.board, self.bottom_sides, data, step);
                assert(counted.next_try[step] == i + 1);
                assert(counted.board[Self::cell_at(data, step)] == self.candidates(data)[i]);
            }
        }
    }

    /// Retreating from the emptied cell keeps the state well formed.
    pub proof fn lemma_retreated_wf(self, data: &SolverData)
        requires
            data.wf(),
            self.wf(data),
            1 <= self.solve_index < 256,
            self.board[Self::cell_at(data, self.solve_index)].piece_number == 0,
        ensures
            self.retreated().wf(data),
    {
        reveal(SearchView::wf);
        let next = self.retreated();
        assert forall|t: int| 0 <= t < 256 && t > next.solve_index implies next.board[
            #[trigger] Self::cell_at(data, t)].piece_number == 0 by {
            if t > self.solve_index {
                assert(self.board[Self::cell_at(data, t)].piece_number == 0);
            }
        }
        assert forall|t: int|
            1 <= t < 256 && t < next.solve_index implies #[trigger] next.justified_at(data, t) by {
            assert(self.justified_at(data, t));
            self.lemma_justified_kept(next, data, t);
        }
    }

    /// Counting a visit keeps the state well formed.
    pub proof fn lemma_counted_wf(self, data: &SolverData)
        requires
            data.wf(),
            self.wf(data),
            1 <= self.solve_index <= 256,
            self.node_count < u64::MAX,
        ensures
            self.counted().wf(data),
    {
        reveal(SearchView::wf);
        let next = self.counted();
        assert forall|t: int|
            1 <= t < 256 && t < next.solve_index implies #[trigger] next.justified_at(data, t) by {
            assert(self.justified_at(data, t));
            self.lemma_justified_kept(next, data, t);
        }
    }
}

/// The key under which the list of the cell of `step` is looked up: the
/// colour that the left neighbour shows, or the frame, times 23, plus the
/// colour that the cell below shows, or the frame.
pub open spec fn key_for(board: Seq<RotatedPiece>, data: &SolverData, step: int) -> int {
    let index = data.board_search_sequence[step];
    let left_side = if index.column == 0 {
        0
    } else {
        board[index.cell() - 1].right_side as int
    };
    let below_side = if index.row == 0 {
        0
    } else {
        board[index.cell() - 16].top_side as int
    };
    left_side * 23 + below_side
}

/// How the list of the cell of `step` was made: for the bottom row from the
/// border sides as they come, or from the corners at its end; elsewhere
/// after the recipe of the table that governs the cell.
pub open spec fn recipe_for(data: &SolverData, step: int) -> (PieceRole, bool, Selection) {
    let index = data.board_search_sequence[step];
    if index.row == 0 {
        if index.column < 15 {
            (PieceRole::Side, false, Selection::Rotation(0))
        } else {
            recipe(PieceCategory::Corners)
        }
    } else {
        recipe(data.master_piece_lookup[index.cell()])
    }
}

impl SearchView {
    /// On a board that the search fills from prepared tables, every
    /// committed piece above step 0 is a candidate of a catalog piece for
    /// the colours that its left neighbour and the cell below it show: its
    /// break count is the number of its two facing edges that differ from
    /// those colours, at most one, zero where its table allows no break,
    /// and never on a frame-reserved colour.
    pub proof fn lemma_committed_piece_matches(
        self,
        data: &SolverData,
        pieces: Seq<Piece>,
        step: int,
    )
        requires
            data.wf(),
            self.wf(data),
            data.is_prepared_from(pieces, data.board_search_sequence@),
            is_sorted_array_of(self.bottom_sides, data.bottom_side_pieces_rotated@),
            1 <= step < self.solve_index,
        ensures
            0 <= key_for(self.board, data, step) < KEY_COUNT,
            entry_from_catalog(
                self.board[Self::cell_at(data, step)],
                key_for(self.board, data, step),
                pieces,
                recipe_for(data, step).0,
                recipe_for(data, step).1,
                recipe_for(data, step).2,
            ),
    {
        reveal(SearchView::wf);
        let index = data.board_search_sequence[step];
        let row = index.row as int;
        let col = index.column as int;
        let key = key_for(self.board, data, step);
        let entry = self.board[Self::cell_at(data, step)];
        let list = list_for(self.board, self.bottom_sides, data, step);
        Self::lemma_cells_differ(data, step, 0);
        assert(index.on_board());
        assert(self.justified_at(data, step));
        let at = self.next_try[step] - 1;
        assert(entry == list[at]);
        if col > 0 {
            assert(self.board[index.cell() - 1].in_range());
        }
        if row > 0 {
            assert(self.board[index.cell() - 16].in_range());
        }
        if row == 0 && col < 15 {
            let bucket = self.bottom_sides[key]@;
            let group = data.bottom_side_pieces_rotated[key]@;
            let cands = source_candidates(pieces, PieceRole::Side, false, Selection::Rotation(0));
            assert(list == bucket);
            assert(is_shuffle_of(bucket, group));
            let jitter = choose|jitter: Seq<i32>|
                {
                    &&& jitter.len() == group.len()
                    &&& forall|i: int| 0 <= i < jitter.len() ==> 0 <= #[trigger] jitter[i] < JITTER_BOUND
                    &&& #[trigger] is_ordering_of(bucket, group, jitter)
                };
            lemma_ordering_keeps_tiers(bucket, group, jitter);
            assert(pieces_of(group).contains(bucket[at]));
            let k = choose|k: int| 0 <= k < group.len() && pieces_of(group)[k] == bucket[at];
            let c = group[k];
            assert(group == with_key(cands, key));
            lemma_with_key_members(cands, key, k);
            lemma_source_candidates_from_catalog(
                pieces,
                PieceRole::Side,
                false,
                Selection::Rotation(0),
            );
            let m = choose|m: int| 0 <= m < cands.len() && cands[m] == c;
            assert(from_catalog(cands[m], pieces, PieceRole::Side, false));
            assert(Selection::Rotation(0).spec_takes(cands[m]));
        } else {
            let category = if row == 0 {
                PieceCategory::Corners
            } else {
                data.master_piece_lookup[index.cell()]
            };
            let table = data.table(category);
            assert(category != PieceCategory::NoPieces);
            assert(table_in_range(table));
            assert(list == table[key]@);
            assert(table_from_catalog(
                table,
                pieces,
                recipe(category).0,
                recipe(category).1,
                recipe(category).2,
            ));
            assert(entry == table[key][at]);
        }
    }

    /// The breaks of the pieces in the cells of the steps up to `step`.
    pub open spec fn breaks_on_board(self, data: &SolverData, step: int) -> int
        decreases step,
    {
        if step <= 0 {
            0
        } else {
            self.breaks_on_board(data, step - 1) + self.board[Self::cell_at(
                data,
                step,
            )].break_count
        }
    }

    /// The rare-coloured edges of the pieces in the cells of the steps up to
    /// `step`.
    pub open spec fn rare_edges_on_board(self, data: &SolverData, step: int) -> int
        decreases step + 1,
    {
        if step < 0 {
            0
        } else {
            self.rare_edges_on_board(data, step - 1) + self.board[Self::cell_at(
                data,
                step,
            )].heuristic_side_count
        }
    }

    /// The committed pieces keep within the two schedules: up to every
    /// committed step they hold no more breaks than the break budget of the
    /// step allows, and, where the heuristic floor applies, at least as many
    /// rare-coloured edges as the floor of the step asks for.
    pub proof fn lemma_board_keeps_schedules(self, data: &SolverData, step: int)
        requires
            data.wf(),
            self.wf(data),
            0 <= step < self.solve_index,
        ensures
            self.breaks_on_board(data, step) == self.breaks[step],
            self.breaks_on_board(data, step) <= data.break_array[step],
            self.rare_edges_on_board(data, step) == self.heuristic[step],
            1 <= step <= MAX_HEURISTIC_INDEX ==> self.rare_edges_on_board(data, step)
                >= data.heuristic_array[step],
        decreases step,
    {
        reveal(SearchView::wf);
        if step > 0 {
            self.lemma_board_keeps_schedules(data, step - 1);
            assert(self.justified_at(data, step));
        } else {
            assert(self.rare_edges_on_board(data, -1) == 0);
        }
    }

    /// Every record is the board of the attempt as it stood after one of the
    /// node visits, with the depth that this visit led to.
    pub proof fn lemma_record_is_a_state(
        self,
        data: &SolverData,
        limits: SearchLimits,
        visits: nat,
        i: int,
    )
        requires
            0 <= i < self.records(data, limits, visits).len(),
        ensures
            exists|k: nat|
                {
                    &&& 1 <= k <= visits
                    &&& self.after_visits(data, (k - 1) as nat).is_record(
                        #[trigger] self.after_visits(data, k),
                        limits,
                    )
                    &&& self.records(data, limits, visits)[i].board == self.after_visits(
                        data,
                        k,
                    ).board
                    &&& self.records(data, limits, visits)[i].depth == self.after_visits(
                        data,
                        k,
                    ).solve_index
                },
        decreases visits,
    {
        let earlier = self.records(data, limits, (visits - 1) as nat);
        if i < earlier.len() {
            self.lemma_record_is_a_state(data, limits, (visits - 1) as nat, i);
            assert(self.records(data, limits, visits)[i] == earlier[i]);
        } else {
            let before = self.after_visits(data, (visits - 1) as nat);
            let now = self.after_visits(data, visits);
            assert(before.is_record(now, limits));
        }
    }

    /// The depths of a well-formed state are in range, and depth 0 was never
    /// counted as visited.
    pub proof fn lemma_wf_bounds(self, data: &SolverData)
        requires
            self.wf(data),
        ensures
            0 <= self.solve_index <= self.max_solve_index <= 256,
            1 <= self.max_solve_index,
            1 <= self.node_count,
            self.counts.len() == 257,
            self.counts[0] == 0,
    {
        reveal(SearchView::wf);
    }

    /// Every candidate of the cell that is visited next is placeable.
    pub proof fn lemma_candidates_placeable(self, data: &SolverData)
        requires
            data.wf(),
            self.wf(data),
            1 <= self.solve_index < 256,
        ensures
            forall|k: int|
                0 <= k < self.candidates(data).len() ==> (#[trigger] self.candidates(
                    data,
                )[k]).placeable(),
            self.candidates(data).len() <= usize::MAX,
    {
        reveal(SearchView::wf);
        let index = data.board_search_sequence[self.solve_index];
        let row = index.row as int;
        let col = index.column as int;
        Self::lemma_cells_differ(data, self.solve_index, 0);
        assert(index.on_board());
        assert(table_in_range(data.table(PieceCategory::Corners)));
        if row == 0 {
            assert(self.board[col - 1].in_range());
            let key = self.board[col - 1].right_side * 23;
            assert(self.bottom_sides[key].len() <= usize::MAX);
            assert(data.corners[key].len() <= usize::MAX);
        } else {
            if col != 0 {
                assert(self.board[row * 16 + (col - 1)].in_range());
            }
            assert(self.board[(row - 1) * 16 + col].in_range());
            let table = data.table(data.master_piece_lookup[row * 16 + col]);
            assert(table_in_range(table));
            let left_side = if col == 0 {
                0
            } else {
                self.board[row * 16 + (col - 1)].right_side as int
            };
            let key = left_side * 23 + self.board[(row - 1) * 16 + col].top_side;
            assert(table[key].len() <= usize::MAX);
        }
    }

    /// One node visit keeps the state well formed. In particular, after it
    /// as before it, a piece is in the usage set exactly if it lies on the
    /// board, and no piece lies in two cells.
    pub proof fn lemma_visit_keeps_wf(self, data: &SolverData)
        requires
            data.wf(),
            self.wf(data),
            1 <= self.solve_index < 256,
            self.node_count < u64::MAX,
        ensures
            self.after_visit(data).wf(data),
            self.after_visit(data).usage_matches_board(),
            self.after_visit(data).pieces_distinct(),
    {
        reveal(SearchView::wf);
        self.lemma_cleared_wf(data);
        let emptied = self.cleared(data);
        emptied.lemma_candidates_placeable(data);
        match emptied.found(data) {
            Some(i) => {
                lemma_scan_result(
                    emptied.candidates(data),
                    emptied.next_try[emptied.solve_index] as int,
                    emptied.used,
                    emptied.breaks_allowed(data),
                    emptied.solve_index <= MAX_HEURISTIC_INDEX,
                    emptied.heuristic[emptied.solve_index - 1] as int,
                    data.heuristic_array[emptied.solve_index] as int,
                    i,
                );
                emptied.lemma_placed_wf(data, i);
            },
            None => {
                emptied.lemma_retreated_wf(data);
                if emptied.retreated().solve_index != 0 {
                    emptied.retreated().lemma_counted_wf(data);
                }
            },
        }
    }

    /// At every point of an attempt the state is well formed: as long as the
    /// attempt is not over, each further node visit keeps the usage set and
    /// the board in step.
    pub proof fn lemma_wf_throughout(self, data: &SolverData, limits: SearchLimits, visits: nat)
        requires
            data.wf(),
            self.wf(data),
            limits.max_node_count < u64::MAX,
            forall|k: nat| k < visits ==> !(#[trigger] self.after_visits(data, k)).is_finished(limits),
        ensures
            self.after_visits(data, visits).wf(data),
            self.after_visits(data, visits).usage_matches_board(),
            self.after_visits(data, visits).pieces_distinct(),
        decreases visits,
    {
        reveal(SearchView::wf);
        if visits > 0 {
            let before = (visits - 1) as nat;
            self.lemma_wf_throughout(data, limits, before);
            assert(!self.after_visits(data, before).is_finished(limits));
            self.after_visits(data, before).lemma_visit_keeps_wf(data);
        }
    }

    /// The piece in the first cell of the walk stays where the attempt put
    /// it at its start.
    pub proof fn lemma_first_piece_stays(
        self,
        data: &SolverData,
        limits: SearchLimits,
        visits: nat,
    )
        requires
            data.wf(),
            self.wf(data),
            limits.max_node_count < u64::MAX,
            forall|k: nat| k < visits ==> !(#[trigger] self.after_visits(data, k)).is_finished(limits),
        ensures
            self.after_visits(data, visits).board[Self::cell_at(data, 0)] == self.board[Self::cell_at(
                data,
                0,
            )],
        decreases visits,
    {
        if visits > 0 {
            let before = (visits - 1) as nat;
            self.lemma_first_piece_stays(data, limits, before);
            self.lemma_wf_throughout(data, limits, before);
            let state = self.after_visits(data, before);
            assert(!state.is_finished(limits));
            Self::lemma_cells_differ(data, 0, state.solve_index);
            reveal(SearchView::wf);
        }
    }

    /// While the attempt is not over, each node visit is counted.
    pub proof fn lemma_visits_are_counted(self, data: &SolverData, limits: SearchLimits, visits: nat)
        requires
            forall|k: nat| k <= visits ==> !(#[trigger] self.after_visits(data, k)).is_finished(limits),
        ensures
            self.after_visits(data, visits).node_count == self.node_count + visits,
        decreases visits,
    {
        if visits > 0 {
            self.lemma_visits_are_counted(data, limits, (visits - 1) as nat);
            assert(!self.after_visits(data, visits).is_finished(limits));
        }
    }

    /// An attempt under a node ceiling is over after at most as many node
    /// visits as the ceiling allows.
    pub proof fn lemma_attempt_is_bounded(self, data: &SolverData, limits: SearchLimits, visits: nat)
        requires
            self.node_count >= 1,
            forall|k: nat| k < visits ==> !(#[trigger] self.after_visits(data, k)).is_finished(limits),
        ensures
            visits <= limits.max_node_count,
    {
        if visits > 0 {
            let before = (visits - 1) as nat;
            self.lemma_visits_are_counted(data, limits, before);
            assert(!self.after_visits(data, before).is_finished(limits));
        }
    }
}

/// A checkpoint as mathematical values.
pub struct Snapshot {
    pub depth: int,
    pub board: Seq<RotatedPiece>,
}

impl SearchView {
    /// Whether visit number `k`, counted from 1, neither set a record nor
    /// ended the attempt.
    pub open spec fn quiet_at(self, data: &SolverData, limits: SearchLimits, k: nat) -> bool {
        k >= 1 && self.after_visits(data, (k - 1) as nat).is_quiet(
            self.after_visits(data, k),
            limits,
        )
    }

    /// Whether the attempt, resumed in this state, first pauses after
    /// `visits` node visits: all visits before were quiet, and this one set a
    /// record or ended the attempt.
    pub open spec fn pauses_at(self, data: &SolverData, limits: SearchLimits, visits: nat) -> bool {
        &&& visits >= 1
        &&& !self.is_finished(limits)
        &&& forall|k: nat| 1 <= k < visits ==> #[trigger] self.quiet_at(data, limits, k)
        &&& !self.quiet_at(data, limits, visits)
    }

    /// What the attempt reports when it pauses after `visits` node visits:
    /// the record depth, or that it is over.
    pub open spec fn event_at(self, data: &SolverData, limits: SearchLimits, visits: nat) -> SearchEvent {
        let before = self.after_visits(data, (visits - 1) as nat);
        let now = self.after_visits(data, visits);
        if before.is_record(now, limits) {
            SearchEvent::Checkpoint(now.solve_index as usize)
        } else {
            SearchEvent::Finished
        }
    }

    /// The records that the first `visits` node visits set, in order.
    pub open spec fn records(self, data: &SolverData, limits: SearchLimits, visits: nat) -> Seq<
        Snapshot,
    >
        decreases visits,
    {
        if visits == 0 {
            Seq::empty()
        } else {
            let earlier = self.records(data, limits, (visits - 1) as nat);
            let before = self.after_visits(data, (visits - 1) as nat);
            let now = self.after_visits(data, visits);
            if before.is_record(now, limits) {
                earlier.push(Snapshot { depth: now.solve_index, board: now.board })
            } else {
                earlier
            }
        }
    }

    /// Whether the attempt, begun in this state, ends after `visits` node
    /// visits: that state is the first in which it is over.
    pub open spec fn ends_at(self, data: &SolverData, limits: SearchLimits, visits: nat) -> bool {
        &&& self.after_visits(data, visits).is_finished(limits)
        &&& forall|k: nat| k < visits ==> !(#[trigger] self.after_visits(data, k)).is_finished(limits)
    }

    /// When an attempt that has not been over in its first `total` visits
    /// pauses `visits` visits later, it has not been over before that pause
    /// either, and its records are those of the first `total` visits and,
    /// where the pause is for a record, the board at the pause.
    pub proof fn lemma_pause_extends_run(
        self,
        data: &SolverData,
        limits: SearchLimits,
        total: nat,
        visits: nat,
    )
        requires
            forall|k: nat| k < total ==> !(#[trigger] self.after_visits(data, k)).is_finished(limits),
            self.after_visits(data, total).pauses_at(data, limits, visits),
        ensures
            self.after_visits(data, total).after_visits(data, visits) == self.after_visits(
                data,
                total + visits,
            ),
            forall|k: nat|
                k < total + visits ==> !(#[trigger] self.after_visits(data, k)).is_finished(limits),
            self.after_visits(data, total).event_at(data, limits, visits) is Finished
                ==> self.after_visits(data, total + visits).is_finished(limits) && self.records(
                data,
                limits,
                total + visits,
            ) == self.records(data, limits, total),
            self.after_visits(data, total).event_at(data, limits, visits) is Checkpoint
                ==> self.records(data, limits, total + visits) == self.records(
                data,
                limits,
                total,
            ).push(
                Snapshot {
                    depth: self.after_visits(data, total + visits).solve_index,
                    board: self.after_visits(data, total + visits).board,
                },
            ),
    {
        let before = self.after_visits(data, total);
        let quiet = (visits - 1) as nat;
        self.lemma_visits_add(data, total, visits);
        self.lemma_visits_add(data, total, quiet);
        assert forall|k: nat| 1 <= k <= quiet implies #[trigger] before.quiet_at(data, limits, k) by {}
        self.lemma_quiet_visits_set_no_record(data, limits, total, quiet);
        assert forall|k: nat| k < total + visits implies !(#[trigger] self.after_visits(
            data,
            k,
        )).is_finished(limits) by {
            if k > total {
                let m = (k - total) as nat;
                assert(before.quiet_at(data, limits, m));
                self.lemma_visits_add(data, total, m);
            }
        }
        assert(!before.quiet_at(data, limits, visits));
    }

    /// Visits add up: `more` visits after `visits` visits are `visits + more`
    /// visits.
    pub proof fn lemma_visits_add(self, data: &SolverData, visits: nat, more: nat)
        ensures
            self.after_visits(data, visits).after_visits(data, more) == self.after_visits(
                data,
                visits + more,
            ),
        decreases more,
    {
        if more > 0 {
            self.lemma_visits_add(data, visits, (more - 1) as nat);
        }
    }

    /// Quiet visits set no record.
    pub proof fn lemma_quiet_visits_set_no_record(
        self,
        data: &SolverData,
        limits: SearchLimits,
        visits: nat,
        more: nat,
    )
        requires
            forall|k: nat|
                1 <= k <= more ==> #[trigger] self.after_visits(data, visits).quiet_at(
                    data,
                    limits,
                    k,
                ),
        ensures
            self.records(data, limits, visits + more) == self.records(data, limits, visits),
        decreases more,
    {
        if more > 0 {
            self.lemma_quiet_visits_set_no_record(data, limits, visits, (more - 1) as nat);
            assert(self.after_visits(data, visits).quiet_at(data, limits, more));
            self.lemma_visits_add(data, visits, more);
            self.lemma_visits_add(data, visits, (more - 1) as nat);
        }
    }
}

} // verus!
