//! A nonogram (picross) constraint-propagation solver.
//!
//! A puzzle annotates every row and column of a rectangular grid with an
//! ordered sequence of run lengths.  The engine maintains three-valued
//! knowledge per cell and tightens it with sound line-local deduction
//! rules — overlap and gap fill — until the grid is solved, stuck, or
//! found contradictory.

mod grid;
mod model;
mod solver;

pub use grid::Grid;
pub use model::LineIndex;
pub use model::LineIndexIterator;
pub use model::PartialRun;
pub use model::PartialSquare;
pub use model::Puzzle;
pub use model::Square;
pub use solver::all_known;
pub use solver::cells_le;
pub use solver::covered;
pub use solver::deduce_overlap;
pub use solver::deduce_run_gaps;
pub use solver::full_count;
pub use solver::gap_cell;
pub use solver::grid_le;
pub use solver::grid_matches;
pub use solver::is_completion;
pub use solver::lemma_blank_grid_le;
pub use solver::lemma_gap_fill_sound;
pub use solver::lemma_grid_le_keeps_known;
pub use solver::lemma_grid_le_trans;
pub use solver::lemma_matches_paint_count;
pub use solver::lemma_no_hints_all_known;
pub use solver::lemma_overlap_fill_sound;
pub use solver::lemma_solution_paints_hint_sum;
pub use solver::line_matches;
pub use solver::line_saturated;
pub use solver::overlap_done;
pub use solver::placement_in_brackets;
pub use solver::placement_ok;
pub use solver::puzzle_solvable;
pub use solver::stuck_state;
pub use solver::PartialLine;
pub use solver::Rule;
pub use solver::Solver;
pub use solver::SolverError;
pub use solver::SolverWorker;
