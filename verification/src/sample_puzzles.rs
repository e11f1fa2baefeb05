//! Sample puzzle data for demonstrations and tests.

use vstd::prelude::*;

use crate::puzzle::SudokuPuzzle;

verus! {

/// A sample 9 by 9 puzzle, given as its clue digits (0 marks a blank).
pub fn get_puzzle_1() -> (result: SudokuPuzzle)
    ensures
        result.wf(),
        result.side() == 9,
        result.max_value() == 9,
        result.spec_block_height() == 3,
        result.spec_block_width() == 3,
        result.spec_vertical_block_count() == 3,
        result.spec_horizontal_block_count() == 3,
{
    let matrix: [[usize; 9]; 9] = [
        [6, 0, 5, 4, 0, 0, 3, 0, 2],
        [7, 3, 4, 0, 6, 0, 0, 5, 8],
        [0, 1, 0, 5, 3, 0, 0, 0, 0],
        [0, 4, 2, 6, 0, 7, 1, 9, 5],
        [0, 9, 7, 0, 0, 4, 0, 6, 0],
        [0, 0, 0, 0, 1, 3, 0, 0, 7],
        [9, 0, 6, 3, 0, 5, 0, 0, 0],
        [4, 7, 0, 0, 9, 1, 0, 2, 0],
        [0, 0, 0, 0, 2, 0, 0, 0, 0],
    ];
    assert(forall|r: int, c: int| 0 <= r < 9 && 0 <= c < 9 ==> #[trigger] matrix@[r]@[c] <= 9);
    SudokuPuzzle::new_basic_9_by_9(matrix)
}

} // verus!
