//! A constraint-propagation solver for square grid logic puzzles.
//!
//! A puzzle is a square arrangement of rectangular blocks, each block a
//! rectangular arrangement of cells, and each cell a set of candidate values.
//! The solver repeatedly strips values already fixed in a row, column or
//! block from the candidate sets of the other cells of that group, for a
//! bounded number of rounds.

use vstd::prelude::*;

pub mod candidates;
pub mod puzzle;
pub mod sample_puzzles;
pub mod solver;

verus! {

/// Everything that can go wrong while building or reducing a puzzle.
///
/// Shape and assignment violations are reported at construction or
/// assignment time; `Contradiction` is reported by the propagation engine
/// when elimination would empty a cell's candidate set, which marks the
/// puzzle as unsatisfiable.
#[derive(Clone, Copy, Debug, PartialEq, Eq, Structural)]
pub enum PuzzleError {
    /// A cell or block was asked to start with no candidate values at all.
    EmptyCandidateRange,
    /// A candidate removal was attempted on a cell that is already resolved.
    RemoveFromResolved,
    /// A direct assignment named a value that is not a current candidate.
    ValueNotCandidate,
    /// Two blocks of one puzzle differ in cell height or cell width.
    MismatchedBlockShape,
    /// The blocks do not form a square arrangement of cells.
    NonSquareShape,
    /// Elimination would leave a cell with no candidate value: the puzzle
    /// is unsatisfiable.
    Contradiction,
}

} // verus!
