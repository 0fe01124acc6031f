use vstd::prelude::*;

pub mod grid;
pub mod rules;
pub mod suduko;

verus! {

/// A 9x9 Sudoku grid stored row by row; `0` marks an empty cell.
pub type Grid = Vec<Vec<u8>>;

/// Something that can solve the grid it holds.
pub trait Solver {
    /// A solution, or `None` when there is none.
    fn solve(&mut self) -> Option<Grid>;
}

} // verus!
