//! Discovery of uniquely solvable Latin-square puzzles.
//!
//! A puzzle is a set of "given" cells of an N-by-N Latin square whose values,
//! together with the knowledge that every other cell differs from the ground
//! truth there, force exactly one valid completion.

pub mod bits;
pub mod canon;
pub mod combos;
pub mod grid;
pub mod search;
pub mod solver;

pub use grid::cyclic_latin_square;
pub use search::find_single_solution_puzzles;
pub use solver::complete_latin_square_backtrack_all_solutions;
