//! Line-by-line deduction for nonogram (picross) puzzles.
//!
//! A puzzle grid carries, for every row and column, an ordered list of
//! run-lengths of filled cells.  The solver repeatedly enumerates all
//! completions of each line that agree with its hints and with the cells
//! already decided, keeps the cells on which every completion agrees, and
//! writes those back, until a full pass over all rows and columns changes
//! nothing.

#![verifier::loop_isolation(false)]

pub mod cell;
pub mod grid;
pub mod line;

pub use cell::Cell;
pub use grid::Picross;
pub use line::common_possibility;
pub use line::take_col;
