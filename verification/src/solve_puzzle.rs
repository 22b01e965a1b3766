//! The backtracking search: one attempt walks the cells in visitation order,
//! places the first admissible candidate of each cell and retreats where
//! none is left.

use rand::rngs::ThreadRng;
use vstd::prelude::*;
use crate::bits::{bit_is_set, clear_bit, is_clear, set_bit};
use crate::board_order::cell_of;
use crate::config::{MAX_HEURISTIC_INDEX, MAX_NODE_COUNT, MIN_SOLVE_INDEX_TO_SAVE};
use crate::rng::{random_index, thread_rng};
use crate::search_model::{scan_from, SearchView, Snapshot};
use crate::solver_data::{lemma_sorted_array_in_range, table_in_range, PieceCategory, SolverData};
use crate::structs::{RotatedPiece, SolverResult};
use crate::tables::{create_sorted_array, is_sorted_array_of};

verus! {

/// The two bounds of an attempt that callers may tune.
#[derive(Debug, Clone, Copy, PartialEq, Eq, Structural)]
pub struct SearchLimits {
    /// Smallest depth whose first reaching is reported as a checkpoint.
    pub min_solve_index_to_save: usize,
    /// Number of node visits after which the attempt is given up.
    pub max_node_count: u64,
}

impl SearchLimits {
    /// The bounds of the standard puzzle.
    pub fn standard() -> (limits: SearchLimits)
        ensures
            limits.min_solve_index_to_save == MIN_SOLVE_INDEX_TO_SAVE,
            limits.max_node_count == MAX_NODE_COUNT,
    {
        SearchLimits {
            min_solve_index_to_save: MIN_SOLVE_INDEX_TO_SAVE,
            max_node_count: MAX_NODE_COUNT,
        }
    }
}

/// The state of one attempt.
pub struct Search {
    /// The cells in row-major order, row 0 at the bottom.
    pub board: [RotatedPiece; 256],
    /// The identifiers of the pieces that lie on the board.
    pub piece_used: [u64; 5],
    /// Rare-coloured edges placed up to and including each step.
    pub cumulative_heuristic_side_count: [u16; 256],
    /// Where in its candidate list each step resumes.
    pub piece_index_to_try_next: [usize; 256],
    /// Breaks made up to and including each step.
    pub cumulative_breaks: [u8; 256],
    /// How often each depth was visited.
    pub solve_index_counts: [u64; 257],
    /// The candidates of the bottom row, ordered for this attempt.
    pub bottom_sides: Vec<Vec<RotatedPiece>>,
    /// The step that is visited next; as many cells are committed.
    pub solve_index: usize,
    /// The greatest depth reached so far.
    pub max_solve_index: usize,
    /// The number of node visits so far.
    pub node_count: u64,
}

impl View for Search {
    type V = SearchView;

    open spec fn view(&self) -> SearchView {
        SearchView {
            board: self.board@,
            used: self.piece_used@,
            heuristic: self.cumulative_heuristic_side_count@,
            next_try: self.piece_index_to_try_next@,
            breaks: self.cumulative_breaks@,
            counts: self.solve_index_counts@,
            bottom_sides: self.bottom_sides@,
            solve_index: self.solve_index as int,
            max_solve_index: self.max_solve_index as int,
            node_count: self.node_count as int,
        }
    }
}

/// What an attempt reports when it pauses.
#[derive(Debug, Clone, Copy, PartialEq, Eq, Structural)]
pub enum SearchEvent {
    /// A depth was reached for the first time that is to be saved.
    Checkpoint(usize),
    /// The attempt is over.
    Finished,
}

impl Search {
    /// What holds of the state at every point of an attempt.
    pub open spec fn wf(&self, data: &SolverData) -> bool {
        self@.wf(data)
    }

    /// Starts an attempt with the given bottom-row candidates and with
    /// `first_corner_piece` in the bottom-left cell.
    pub fn start_with(
        data: &SolverData,
        bottom_sides: Vec<Vec<RotatedPiece>>,
        first_corner_piece: RotatedPiece,
    ) -> (search: Search)
        requires
            data.wf(),
            table_in_range(bottom_sides@),
            first_corner_piece.placeable(),
        ensures
            search@ == SearchView::initial(bottom_sides@, first_corner_piece),
            search.wf(data),
    {
        let mut piece_used = [0u64;5];
        let mut cumulative_heuristic_side_count = [0u16;256];
        let piece_index_to_try_next = [0usize;256];
        let cumulative_breaks = [0u8;256];
        let mut solve_index_counts = [0u64;257];
        let mut board = [RotatedPiece::default();256];

        set_bit(&mut piece_used, first_corner_piece.piece_number as usize);
        cumulative_heuristic_side_count[0] = first_corner_piece.heuristic_side_count as u16;
        board[0] = first_corner_piece;
        solve_index_counts[1] = 1;

        let search = Search {
            board,
            piece_used,
            cumulative_heuristic_side_count,
            piece_index_to_try_next,
            cumulative_breaks,
            solve_index_counts,
            bottom_sides,
            solve_index: 1,
            max_solve_index: 1,
            node_count: 1,
        };
        proof {
            let v = SearchView::initial(bottom_sides@, first_corner_piece);
            assert(search@.board =~= v.board);
            assert(search@.used =~= v.used);
            assert(search@.heuristic =~= v.heuristic);
            assert(search@.next_try =~= v.next_try);
            assert(search@.breaks =~= v.breaks);
            assert(search@.counts =~= v.counts);
            SearchView::lemma_initial_wf(data, bottom_sides@, first_corner_piece);
        }
        search
    }

    /// Scans the candidate list of the cell that is visited next, from where
    /// the step resumes, for the first admissible candidate.
    pub fn scan(&self, data: &SolverData) -> (found: Option<(usize, RotatedPiece)>)
        requires
            data.wf(),
            self.wf(data),
            1 <= self.solve_index < 256,
        ensures
            match found {
                Some((i, piece)) => {
                    &&& self@.found(data) == Some(i as int)
                    &&& i < self@.candidates(data).len()
                    &&& i < usize::MAX
                    &&& piece == self@.candidates(data)[i as int]
                    &&& piece.placeable()
                    &&& piece.break_count <= self@.breaks_allowed(data)
                    &&& !bit_is_set(self.piece_used@, piece.piece_number as int)
                    &&& !(self.solve_index <= MAX_HEURISTIC_INDEX
                        && self.cumulative_heuristic_side_count[self.solve_index - 1]
                        + piece.heuristic_side_count < data.heuristic_array[self.solve_index as int])
                },
                None => self@.found(data) is None,
            },
    {
        let solve_index = self.solve_index;
        let index = data.board_search_sequence[solve_index];
        let row = index.row as usize;
        let col = index.column as usize;
        proof {
            reveal(SearchView::wf);
            SearchView::lemma_cells_differ(data, solve_index as int, 0);
            assert(data.board_search_sequence[solve_index as int].on_board());
            assert(table_in_range(data.table(PieceCategory::Corners)));
            assert(self@.board[0].in_range());
        }
        let b_index = cell_of(index);

        let candidates: &Vec<RotatedPiece> = if row == 0 {
            assert(self@.board[col - 1].in_range());
            let key = (self.board[col - 1].right_side as usize) * 23;
            if col < 15 {
                &self.bottom_sides[key]
            } else {
                &data.corners[key]
            }
        } else {
            let left_side = if col == 0 {
                0
            } else {
                assert(self@.board[row * 16 + (col - 1)].in_range());
                self.board[row * 16 + (col - 1)].right_side
            };
            assert(self@.board[(row - 1) * 16 + col].in_range());
            let key = (left_side as usize) * 23 + (self.board[(row - 1) * 16 + col].top_side as usize);
            let category = data.master_piece_lookup[b_index];
            assert(table_in_range(data.table(category)));
            &data.get_pieces(category)[key]
        };
        assert(candidates@ == self@.candidates(data));
        assert(forall|k: int| 0 <= k < candidates.len() ==> (#[trigger] candidates[k]).placeable());

        assert(self@.breaks[solve_index - 1] <= data.break_array[solve_index - 1]);
        let breaks_this_turn = data.break_array[solve_index] - self.cumulative_breaks[solve_index
            - 1];
        let try_index = self.piece_index_to_try_next[solve_index];
        let placed = self.cumulative_heuristic_side_count[solve_index - 1];
        assert(self@.heuristic[solve_index - 1] <= 4 * solve_index);
        let floor = data.heuristic_array[solve_index];
        let floor_applies = solve_index <= MAX_HEURISTIC_INDEX;
        let piece_candidate_length = candidates.len();

        let mut i: usize = try_index;
        while i < piece_candidate_length
            invariant
                try_index <= i,
                piece_candidate_length == candidates.len(),
                placed <= 1024,
                1 <= solve_index < 256,
                solve_index == self.solve_index,
                candidates@ == self@.candidates(data),
                breaks_this_turn == self@.breaks_allowed(data),
                floor_applies == (solve_index <= MAX_HEURISTIC_INDEX),
                placed == self@.heuristic[solve_index - 1],
                floor == data.heuristic_array[solve_index as int],
                try_index == self@.next_try[solve_index as int],
                forall|k: int| 0 <= k < candidates.len() ==> (#[trigger] candidates[k]).placeable(),
                scan_from(
                    candidates@,
                    try_index as int,
                    self.piece_used@,
                    breaks_this_turn as int,
                    floor_applies,
                    placed as int,
                    floor as int,
                ) == scan_from(
                    candidates@,
                    i as int,
                    self.piece_used@,
                    breaks_this_turn as int,
                    floor_applies,
                    placed as int,
                    floor as int,
                ),
            decreases piece_candidate_length - i,
        {
            let candidate = candidates[i];
            assert(candidate.placeable());
            if candidate.break_count > breaks_this_turn {
                return None;
            }
            if is_clear(&self.piece_used, candidate.piece_number as usize) {
                if floor_applies && (placed as i32 + candidate.heuristic_side_count as i32) < floor {
                    return None;
                }
                return Some((i, candidate));
            }
            i += 1;
        }
        None
    }

    /// Performs one node visit: empties the cell of the current step, places
    /// the first admissible candidate and advances, or retreats where there
    /// is none, and counts the visit to the step that this leads to.
    #[verifier::rlimit(40)]
    pub fn visit(&mut self, data: &SolverData)
        requires
            data.wf(),
            old(self).wf(data),
            1 <= old(self).solve_index < 256,
            old(self).node_count < u64::MAX,
        ensures
            final(self)@ == old(self)@.after_visit(data),
            final(self).wf(data),
    {
        let solve_index = self.solve_index;
        let index = data.board_search_sequence[solve_index];
        proof {
            reveal(SearchView::wf);
            assert(data.board_search_sequence[solve_index as int].on_board());
            old(self)@.lemma_cleared_wf(data);
        }
        let b_index = cell_of(index);

        let lying = self.board[b_index];
        if lying.piece_number > 0 {
            assert(self@.board[b_index as int].in_range());
            clear_bit(&mut self.piece_used, lying.piece_number as usize);
            self.board[b_index] = RotatedPiece::default();
        }
        let ghost emptied = old(self)@.cleared(data);
        assert(self@.board =~= emptied.board);
        assert(self@ == emptied);

        let found = self.scan(data);
        match found {
            Some((i, piece)) => {
                proof {
                    emptied.lemma_placed_wf(data, i as int);
                    assert(emptied.breaks[solve_index - 1] <= data.break_array[solve_index - 1]);
                    assert(emptied.heuristic[solve_index - 1] <= 4 * solve_index);
                }
                self.board[b_index] = piece;
                set_bit(&mut self.piece_used, piece.piece_number as usize);
                self.cumulative_breaks[solve_index] = self.cumulative_breaks[solve_index - 1]
                    + piece.break_count;
                self.cumulative_heuristic_side_count[solve_index] =
                    self.cumulative_heuristic_side_count[solve_index - 1]
                    + piece.heuristic_side_count as u16;
                self.piece_index_to_try_next[solve_index] = i + 1;
                self.solve_index = solve_index + 1;
                proof {
                    let next = emptied.placed(data, i as int);
                    assert(self@.board =~= next.board);
                    assert(self@.breaks =~= next.breaks);
                    assert(self@.heuristic =~= next.heuristic);
                    assert(self@.next_try =~= next.next_try);
                    assert(self@ == next);
                }
            },
            None => {
                proof {
                    emptied.lemma_retreated_wf(data);
                }
                self.piece_index_to_try_next[solve_index] = 0;
                self.solve_index = solve_index - 1;
                proof {
                    let next = emptied.retreated();
                    assert(self@.next_try =~= next.next_try);
                    assert(self@ == next);
                    if next.solve_index != 0 {
                        next.lemma_counted_wf(data);
                    }
                }
            },
        }
        let ghost moved = self@;
        assert(moved == old(self)@.moved(data));
        if self.solve_index != 0 {
            assert(moved.counts[moved.solve_index] <= moved.node_count) by {
                if found is None {
                    assert(moved.wf(data));
                } else {
                    assert(moved.counted().wf(data));
                }
            }
            self.node_count += 1;
            let depth = self.solve_index;
            self.solve_index_counts[depth] = self.solve_index_counts[depth] + 1;
            if self.solve_index > self.max_solve_index {
                self.max_solve_index = self.solve_index;
            }
            proof {
                assert(self@.counts =~= moved.counted().counts);
                assert(self@ == moved.counted());
            }
        }
    }
}

/// A board as it stood when a record depth was reached.
#[derive(Debug, Clone, Copy, PartialEq, Eq)]
pub struct Checkpoint {
    /// The depth that was reached.
    pub depth: usize,
    /// The cells in row-major order, row 0 at the bottom.
    pub board: [RotatedPiece; 256],
}

impl View for Checkpoint {
    type V = Snapshot;

    open spec fn view(&self) -> Snapshot {
        Snapshot { depth: self.depth as int, board: self.board@ }
    }
}

/// The checkpoints of a list as mathematical values.
pub open spec fn snapshots(checkpoints: Seq<Checkpoint>) -> Seq<Snapshot> {
    Seq::new(checkpoints.len(), |i: int| checkpoints[i]@)
}

impl Search {
    /// Whether the attempt is over: no step is left to retreat to, the board
    /// is full, or the node ceiling is passed.
    pub fn is_over(&self, limits: &SearchLimits) -> (over: bool)
        ensures
            over == self@.is_finished(*limits),
    {
        self.solve_index == 0 || self.solve_index >= 256 || self.node_count
            > limits.max_node_count
    }

    /// Resumes the attempt and runs it until a record depth is reached that
    /// is to be saved, or until the attempt is over.
    ///
    /// After a checkpoint the caller saves the board and resumes. The depth
    /// of a checkpoint is greater than every depth reached before, so the
    /// depths of the checkpoints of one attempt strictly increase, and none
    /// is below the save threshold.
    #[verifier::rlimit(40)]
    pub fn advance(&mut self, data: &SolverData, limits: &SearchLimits) -> (event: SearchEvent)
        requires
            data.wf(),
            old(self).wf(data),
            limits.max_node_count < u64::MAX,
        ensures
            final(self).wf(data),
            old(self)@.is_finished(*limits) ==> event == SearchEvent::Finished && final(self)@
                == old(self)@,
            !old(self)@.is_finished(*limits) ==> exists|visits: nat|
                {
                    &&& #[trigger] old(self)@.pauses_at(data, *limits, visits)
                    &&& final(self)@ == old(self)@.after_visits(data, visits)
                    &&& event == old(self)@.event_at(data, *limits, visits)
                },
            final(self).max_solve_index >= old(self).max_solve_index,
            event == SearchEvent::Finished ==> final(self)@.is_finished(*limits),
            event matches SearchEvent::Checkpoint(depth) ==> {
                &&& depth == final(self).solve_index
                &&& depth == final(self).max_solve_index
                &&& depth > old(self).max_solve_index
                &&& depth >= limits.min_solve_index_to_save
            },
    {
        if self.is_over(limits) {
            return SearchEvent::Finished;
        }
        let ghost start = self@;
        let ghost mut visits: nat = 0;
        loop
            invariant
                data.wf(),
                self.wf(data),
                limits.max_node_count < u64::MAX,
                !start.is_finished(*limits),
                start == old(self)@,
                self@ == start.after_visits(data, visits),
                !self@.is_finished(*limits),
                forall|k: nat| 1 <= k <= visits ==> #[trigger] start.quiet_at(data, *limits, k),
                self.max_solve_index >= start.max_solve_index,
            decreases limits.max_node_count + 1 - self.node_count,
        {
            let previous_best = self.max_solve_index;
            let ghost before = self@;
            self.visit(data);
            proof {
                visits = visits + 1;
                assert(self@ == start.after_visits(data, visits));
                assert(start.after_visits(data, (visits - 1) as nat) == before);
            }
            if self.solve_index == 0 {
                proof {
                    assert(!before.is_record(self@, *limits));
                    assert(!start.quiet_at(data, *limits, visits));
                    assert(start.pauses_at(data, *limits, visits));
                }
                return SearchEvent::Finished;
            }
            if self.solve_index > previous_best && self.solve_index
                >= limits.min_solve_index_to_save {
                proof {
                    assert(before.is_record(self@, *limits));
                    assert(!start.quiet_at(data, *limits, visits));
                    assert(start.pauses_at(data, *limits, visits));
                }
                return SearchEvent::Checkpoint(self.solve_index);
            }
            if self.solve_index >= 256 || self.node_count > limits.max_node_count {
                proof {
                    assert(!start.quiet_at(data, *limits, visits));
                    assert(start.pauses_at(data, *limits, visits));
                }
                return SearchEvent::Finished;
            }
            proof {
                assert(start.quiet_at(data, *limits, visits));
            }
        }
    }

    /// The statistics of the attempt so far.
    pub fn result(&self) -> (result: SolverResult)
        ensures
            result.solve_indexes@ == self@.counts,
            result.max_depth == self.max_solve_index,
    {
        SolverResult { solve_indexes: self.solve_index_counts, max_depth: self.max_solve_index }
    }

    /// Runs the attempt to its end and returns the checkpoints that it set
    /// on the way, in order.
    #[verifier::rlimit(40)]
    pub fn run_to_end(&mut self, data: &SolverData, limits: &SearchLimits) -> (checkpoints: Vec<
        Checkpoint,
    >)
        requires
            data.wf(),
            old(self).wf(data),
            limits.max_node_count < u64::MAX,
        ensures
            final(self).wf(data),
            exists|visits: nat|
                {
                    &&& #[trigger] old(self)@.ends_at(data, *limits, visits)
                    &&& final(self)@ == old(self)@.after_visits(data, visits)
                    &&& snapshots(checkpoints@) == old(self)@.records(data, *limits, visits)
                },
            forall|i: int, j: int|
                0 <= i < j < checkpoints.len() ==> (#[trigger] checkpoints[i]).depth < (
                #[trigger] checkpoints[j]).depth,
            forall|i: int|
                0 <= i < checkpoints.len() ==> {
                    &&& (#[trigger] checkpoints[i]).depth >= limits.min_solve_index_to_save
                    &&& checkpoints[i].depth > old(self).max_solve_index
                    &&& checkpoints[i].depth <= final(self).max_solve_index
                },
    {
        let mut checkpoints: Vec<Checkpoint> = Vec::new();
        let ghost start = self@;
        let ghost mut total: nat = 0;
        proof {
            assert(snapshots(checkpoints@) =~= start.records(data, *limits, 0));
        }
        loop
            invariant
                data.wf(),
                self.wf(data),
                limits.max_node_count < u64::MAX,
                start == old(self)@,
                self@ == start.after_visits(data, total),
                forall|k: nat| k < total ==> !(#[trigger] start.after_visits(data, k)).is_finished(
                    *limits,
                ),
                snapshots(checkpoints@) == start.records(data, *limits, total),
                self.max_solve_index >= old(self).max_solve_index,
                forall|i: int, j: int|
                    0 <= i < j < checkpoints.len() ==> (#[trigger] checkpoints[i]).depth < (
                    #[trigger] checkpoints[j]).depth,
                forall|i: int|
                    0 <= i < checkpoints.len() ==> {
                        &&& (#[trigger] checkpoints[i]).depth >= limits.min_solve_index_to_save
                        &&& checkpoints[i].depth > old(self).max_solve_index
                        &&& checkpoints[i].depth <= self.max_solve_index
                    },
            decreases 256 - self.max_solve_index,
        {
            let ghost before = self@;
            let was_over = self.is_over(limits);
            let event = self.advance(data, limits);
            proof {
                self@.lemma_wf_bounds(data);
            }
            if was_over {
                assert(event == SearchEvent::Finished);
                assert(start.ends_at(data, *limits, total));
                return checkpoints;
            }
            let ghost visits = choose|visits: nat|
                {
                    &&& #[trigger] before.pauses_at(data, *limits, visits)
                    &&& self@ == before.after_visits(data, visits)
                    &&& event == before.event_at(data, *limits, visits)
                };
            proof {
                start.lemma_pause_extends_run(data, *limits, total, visits);
            }
            let ghost earlier = checkpoints@;
            match event {
                SearchEvent::Finished => {
                    proof {
                        assert(start.ends_at(data, *limits, total + visits));
                    }
                    return checkpoints;
                },
                SearchEvent::Checkpoint(depth) => {
                    checkpoints.push(Checkpoint { depth, board: self.board });
                    proof {
                        assert(snapshots(checkpoints@) =~= snapshots(earlier).push(
                            Snapshot { depth: depth as int, board: self.board@ },
                        ));
                        total = total + visits;
                    }
                },
            }
        }
    }
}

/// What one attempt leaves behind: its statistics, and the boards of the
/// records that are to be saved, in the order in which they were set.
#[derive(Debug, Clone, PartialEq, Eq)]
pub struct SolveOutcome {
    pub result: SolverResult,
    pub checkpoints: Vec<Checkpoint>,
}

/// Whether `start` is a state in which an attempt on `data` may begin: the
/// bottom-row candidates are those of `data`, ordered under some jitter, and
/// the first corner is one of the corner candidates for a cell with the
/// frame on its left and below.
pub open spec fn is_attempt_start(start: SearchView, data: &SolverData) -> bool {
    &&& is_sorted_array_of(start.bottom_sides, data.bottom_side_pieces_rotated@)
    &&& exists|first: int|
        0 <= first < data.corners[0].len() && start == SearchView::initial(
            start.bottom_sides,
            #[trigger] data.corners[0][first],
        )
}

impl Search {
    /// Starts an attempt: orders the bottom-row candidates afresh and draws
    /// the first corner.
    pub fn start(data: &SolverData, rng: &mut ThreadRng) -> (search: Search)
        requires
            data.wf(),
            data.corners[0].len() > 0,
        ensures
            search.wf(data),
            is_attempt_start(search@, data),
    {
        let bottom_sides = create_sorted_array(&data.bottom_side_pieces_rotated, rng);
        proof {
            lemma_sorted_array_in_range(bottom_sides@, data.bottom_side_pieces_rotated@);
            assert(table_in_range(data.table(PieceCategory::Corners)));
        }
        let corner_list = &data.corners[0];
        let first = random_index(rng, corner_list.len());
        let first_corner_piece = corner_list[first];
        assert(data.corners[0][first as int].placeable());
        Search::start_with(data, bottom_sides, first_corner_piece)
    }
}

/// Runs one attempt on `solver_data`: from a random first corner and a fresh
/// order of the bottom-row candidates to the first state in which the
/// attempt is over.
pub fn solve_puzzle(solver_data: &SolverData, limits: &SearchLimits) -> (outcome: SolveOutcome)
    requires
        solver_data.wf(),
        solver_data.corners[0].len() > 0,
        limits.max_node_count < u64::MAX,
    ensures
        exists|start: SearchView, visits: nat|
            {
                &&& is_attempt_start(start, solver_data)
                &&& #[trigger] start.ends_at(solver_data, *limits, visits)
                &&& outcome.result.solve_indexes@ == start.after_visits(solver_data, visits).counts
                &&& outcome.result.max_depth == start.after_visits(
                    solver_data,
                    visits,
                ).max_solve_index
                &&& snapshots(outcome.checkpoints@) == start.records(solver_data, *limits, visits)
            },
        1 <= outcome.result.max_depth <= 256,
        outcome.result.solve_indexes[0] == 0,
        forall|i: int, j: int|
            0 <= i < j < outcome.checkpoints.len() ==> (#[trigger] outcome.checkpoints[i]).depth < (
            #[trigger] outcome.checkpoints[j]).depth,
        forall|i: int|
            0 <= i < outcome.checkpoints.len() ==> limits.min_solve_index_to_save <= (
            #[trigger] outcome.checkpoints[i]).depth <= outcome.result.max_depth,
{
    let mut rng = thread_rng();
    let mut search = Search::start(solver_data, &mut rng);
    let ghost start = search@;
    let checkpoints = search.run_to_end(solver_data, limits);
    let result = search.result();
    proof {
        let visits = choose|visits: nat|
            {
                &&& #[trigger] start.ends_at(solver_data, *limits, visits)
                &&& search@ == start.after_visits(solver_data, visits)
                &&& snapshots(checkpoints@) == start.records(solver_data, *limits, visits)
            };
        assert(start.ends_at(solver_data, *limits, visits));
        search@.lemma_wf_bounds(solver_data);
    }
    SolveOutcome { result, checkpoints }
}

} // verus!
