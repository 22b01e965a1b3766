//! A randomized, heuristic-guided backtracking solver for a 16 x 16
//! edge-matching tiling puzzle.
//!
//! The candidate tables, the two pruning schedules and the search engine are
//! verified: each function states what it computes, and the search keeps its
//! board, its usage set and its running sums in step at every node visit.
//!
//! - `structs`, `config`: the data of the puzzle and its constants.
//! - `bits`: the usage set.
//! - `candidates`, `ordering`, `tables`: from a piece to the ordered
//!   candidate lists of a table.
//! - `schedule`: the break budget and the heuristic floor.
//! - `board_order`: the walk over the cells.
//! - `solver_data`: everything that the attempts of one iteration share.
//! - `search_model`, `solve_puzzle`: one attempt, as mathematics and as code.
//! - `util`: the text and the file name of a saved board.
//! - `statistics`, `workers`: what the orchestrator adds up and how many
//!   workers it runs.
//! - `rng`: the random source.

pub mod bits;
pub mod board_order;
pub mod candidates;
pub mod config;
pub mod ordering;
pub mod rng;
pub mod schedule;
pub mod search_model;
pub mod solve_puzzle;
pub mod solver_data;
pub mod statistics;
pub mod structs;
pub mod tables;
pub mod util;
pub mod workers;
