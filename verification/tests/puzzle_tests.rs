use sudoku_solver::puzzle::{SudokuPuzzle, SudokuPuzzleBlock, SudokuPuzzleCell};
use sudoku_solver::sample_puzzles::get_puzzle_1;
use sudoku_solver::PuzzleError;

#[test]
fn sudoku_puzzle_cell_correct_initial_values() {
    let mut cell = SudokuPuzzleCell::new(1).unwrap();
    assert_eq!(cell.get_possibilities(), vec![1]);

    cell = SudokuPuzzleCell::new(9).unwrap();
    assert_eq!(cell.get_possibilities(), vec![1, 2, 3, 4, 5, 6, 7, 8, 9]);
}

#[test]
fn sudoku_puzzle_cell_empty_init_is_error() {
    assert!(matches!(
        SudokuPuzzleCell::new(0),
        Err(PuzzleError::EmptyCandidateRange)
    ));
}

#[test]
fn sudoku_puzzle_get_row() {
    let puzzle = get_puzzle_1();

    assert_eq!(
        puzzle
            .get_row(0)
            .iter()
            .map(|cell| cell.get_value().unwrap_or(0))
            .collect::<Vec<usize>>(),
        vec![6, 0, 5, 4, 0, 0, 3, 0, 2]
    );

    assert_eq!(
        puzzle
            .get_row(1)
            .iter()
            .map(|cell| cell.get_value().unwrap_or(0))
            .collect::<Vec<usize>>(),
        vec![7, 3, 4, 0, 6, 0, 0, 5, 8]
    );

    assert_eq!(
        puzzle
            .get_row(2)
            .iter()
            .map(|cell| cell.get_value().unwrap_or(0))
            .collect::<Vec<usize>>(),
        vec![0, 1, 0, 5, 3, 0, 0, 0, 0]
    );

    assert_eq!(
        puzzle
            .get_row(3)
            .iter()
            .map(|cell| cell.get_value().unwrap_or(0))
            .collect::<Vec<usize>>(),
        vec![0, 4, 2, 6, 0, 7, 1, 9, 5]
    );

    assert_eq!(
        puzzle
            .get_row(4)
            .iter()
            .map(|cell| cell.get_value().unwrap_or(0))
            .collect::<Vec<usize>>(),
        vec![0, 9, 7, 0, 0, 4, 0, 6, 0]
    );

    assert_eq!(
        puzzle
            .get_row(5)
            .iter()
            .map(|cell| cell.get_value().unwrap_or(0))
            .collect::<Vec<usize>>(),
        vec![0, 0, 0, 0, 1, 3, 0, 0, 7]
    );

    assert_eq!(
        puzzle
            .get_row(6)
            .iter()
            .map(|cell| cell.get_value().unwrap_or(0))
            .collect::<Vec<usize>>(),
        vec![9, 0, 6, 3, 0, 5, 0, 0, 0]
    );

    assert_eq!(
        puzzle
            .get_row(7)
            .iter()
            .map(|cell| cell.get_value().unwrap_or(0))
            .collect::<Vec<usize>>(),
        vec![4, 7, 0, 0, 9, 1, 0, 2, 0]
    );

    assert_eq!(
        puzzle
            .get_row(8)
            .iter()
            .map(|cell| cell.get_value().unwrap_or(0))
            .collect::<Vec<usize>>(),
        vec![0, 0, 0, 0, 2, 0, 0, 0, 0]
    );
}

#[test]
fn cell_value_is_defined_exactly_for_singletons() {
    let mut cell = SudokuPuzzleCell::new(4).unwrap();
    assert_eq!(cell.get_value(), None);
    assert!(!cell.has_value());

    cell.set_value(3).unwrap();
    assert_eq!(cell.get_value(), Some(3));
    assert!(cell.has_value());
}

#[test]
fn cell_removing_absent_possibility_is_a_no_op() {
    let mut cell = SudokuPuzzleCell::new(4).unwrap();
    cell.remove_possibility(9).unwrap();
    assert_eq!(cell.get_possibilities(), vec![1, 2, 3, 4]);

    cell.remove_possibility(2).unwrap();
    assert_eq!(cell.get_possibilities(), vec![1, 3, 4]);
    cell.remove_possibility(2).unwrap();
    assert_eq!(cell.get_possibilities(), vec![1, 3, 4]);
}

#[test]
fn cell_removing_from_resolved_cell_is_an_error() {
    let mut cell = SudokuPuzzleCell::new(1).unwrap();
    assert!(matches!(
        cell.remove_possibility(1),
        Err(PuzzleError::RemoveFromResolved)
    ));
    assert_eq!(cell.get_possibilities(), vec![1]);

    let mut resolved = SudokuPuzzleCell::new(9).unwrap();
    resolved.set_value(5).unwrap();
    assert!(matches!(
        resolved.remove_possibility(7),
        Err(PuzzleError::RemoveFromResolved)
    ));
}

#[test]
fn cell_assigning_value_outside_candidates_is_an_error() {
    let mut cell = SudokuPuzzleCell::new(4).unwrap();
    cell.remove_possibility(3).unwrap();
    assert!(matches!(
        cell.set_value(3),
        Err(PuzzleError::ValueNotCandidate)
    ));
    assert_eq!(cell.get_possibilities(), vec![1, 2, 4]);

    cell.set_value(2).unwrap();
    assert_eq!(cell.get_possibilities(), vec![2]);
}

#[test]
fn block_with_no_cells_is_an_error() {
    assert!(matches!(
        SudokuPuzzleBlock::new(0, 3),
        Err(PuzzleError::EmptyCandidateRange)
    ));
    assert!(matches!(
        SudokuPuzzleBlock::new(3, 0),
        Err(PuzzleError::EmptyCandidateRange)
    ));
}

#[test]
fn block_views_and_assignment() {
    let mut block = SudokuPuzzleBlock::new(2, 3).unwrap();
    assert_eq!(block.get_cell_height(), 2);
    assert_eq!(block.get_cell_width(), 3);
    assert_eq!(block.get_block_row(0).len(), 3);
    assert_eq!(block.get_block_row(2).len(), 0);
    assert_eq!(block.get_block_column(1).len(), 2);
    assert_eq!(block.get_block_column(3).len(), 0);

    block.set_cell_value(0, 1, 5).unwrap();
    assert_eq!(block.get_block_row(0)[1].get_value(), Some(5));
    assert!(matches!(
        block.set_cell_value(0, 1, 6),
        Err(PuzzleError::ValueNotCandidate)
    ));
    block.set_cell_value_if_nonzero(1, 2, 0).unwrap();
    assert_eq!(block.get_block_row(1)[2].get_value(), None);
}

#[test]
fn puzzle_with_mismatched_block_shapes_is_an_error() {
    let a = SudokuPuzzleBlock::new(3, 3).unwrap();
    let b = SudokuPuzzleBlock::new(2, 3).unwrap();
    assert!(matches!(
        SudokuPuzzle::new(vec![vec![a, b]]),
        Err(PuzzleError::MismatchedBlockShape)
    ));
}

#[test]
fn puzzle_with_non_square_cell_arrangement_is_an_error() {
    let a = SudokuPuzzleBlock::new(3, 3).unwrap();
    let b = SudokuPuzzleBlock::new(3, 3).unwrap();
    assert!(matches!(
        SudokuPuzzle::new(vec![vec![a, b]]),
        Err(PuzzleError::NonSquareShape)
    ));
}

#[test]
fn puzzle_from_single_block_and_empty_puzzle() {
    let a = SudokuPuzzleBlock::new(3, 3).unwrap();
    let puzzle = SudokuPuzzle::new(vec![vec![a]]).unwrap();
    assert_eq!(puzzle.get_height(), 3);
    assert_eq!(puzzle.get_width(), 3);
    assert_eq!(puzzle.get_block_height(), 3);
    assert_eq!(puzzle.get_row(0).len(), 3);
    assert_eq!(puzzle.get_row(3).len(), 0);

    let empty = SudokuPuzzle::new(Vec::new()).unwrap();
    assert_eq!(empty.get_height(), 0);
    assert_eq!(empty.get_width(), 0);
    assert_eq!(empty.cell_count(), 0);
}

#[test]
fn puzzle_get_column_crosses_blocks() {
    let puzzle = get_puzzle_1();
    assert_eq!(
        puzzle
            .get_column(0)
            .iter()
            .map(|cell| cell.get_value().unwrap_or(0))
            .collect::<Vec<usize>>(),
        vec![6, 7, 0, 0, 0, 0, 9, 4, 0]
    );
    assert_eq!(
        puzzle
            .get_column(8)
            .iter()
            .map(|cell| cell.get_value().unwrap_or(0))
            .collect::<Vec<usize>>(),
        vec![2, 8, 0, 5, 0, 7, 0, 0, 0]
    );
    assert_eq!(puzzle.get_column(9).len(), 0);
}
