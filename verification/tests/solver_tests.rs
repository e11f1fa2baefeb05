use sudoku_solver::puzzle::SudokuPuzzle;
use sudoku_solver::sample_puzzles::get_puzzle_1;
use sudoku_solver::solver::{attempt_to_solve, reduce_by_row, solve_for_rounds};
use sudoku_solver::PuzzleError;

fn row_values(puzzle: &SudokuPuzzle, r: usize) -> Vec<usize> {
    puzzle
        .get_row(r)
        .iter()
        .map(|cell| cell.get_value().unwrap_or(0))
        .collect()
}

fn all_candidates(puzzle: &SudokuPuzzle) -> Vec<Vec<usize>> {
    (0..puzzle.get_height())
        .flat_map(|r| {
            puzzle
                .get_row(r)
                .iter()
                .map(|cell| cell.get_possibilities())
                .collect::<Vec<Vec<usize>>>()
        })
        .collect()
}

#[test]
fn solving_keeps_the_clues_in_place() {
    let mut puzzle = get_puzzle_1();
    attempt_to_solve(&mut puzzle).unwrap();

    let first = row_values(&puzzle, 0);
    assert_eq!(first[0], 6);
    assert_eq!(first[2], 5);
    assert_eq!(first[3], 4);
    assert_eq!(first[6], 3);
    assert_eq!(first[8], 2);
    let fourth = row_values(&puzzle, 3);
    assert_eq!(fourth[1], 4);
    assert_eq!(fourth[3], 6);
    assert_eq!(fourth[8], 5);
}

#[test]
fn solving_longer_changes_nothing_beyond_convergence() {
    let mut short_run = get_puzzle_1();
    let mut long_run = get_puzzle_1();
    solve_for_rounds(&mut short_run, 100).unwrap();
    solve_for_rounds(&mut long_run, 200).unwrap();
    assert_eq!(all_candidates(&short_run), all_candidates(&long_run));
}

#[test]
fn solving_twice_changes_nothing_at_the_fixpoint() {
    let mut puzzle = get_puzzle_1();
    attempt_to_solve(&mut puzzle).unwrap();
    let converged = all_candidates(&puzzle);
    attempt_to_solve(&mut puzzle).unwrap();
    assert_eq!(all_candidates(&puzzle), converged);
}

#[test]
fn row_reduction_keeps_resolved_cells_and_strips_taken_values() {
    let mut puzzle = get_puzzle_1();
    reduce_by_row(&mut puzzle).unwrap();

    // the resolved cells of the first row are untouched
    let first = row_values(&puzzle, 0);
    assert_eq!(first[0], 6);
    assert_eq!(first[2], 5);
    assert_eq!(first[3], 4);
    assert_eq!(first[6], 3);
    assert_eq!(first[8], 2);

    // the unresolved cells lost exactly the taken values and nothing else
    let row = puzzle.get_row(0);
    let second = row[1].get_possibilities();
    assert_eq!(second, vec![1, 7, 8, 9]);
    assert!(!second.is_empty());
}

#[test]
fn an_unsatisfiable_puzzle_reports_a_contradiction() {
    // the two blanks of the first row can only hold 1 or 9, but the first
    // column already fixes both 1 and 9 below them
    let mut puzzle = SudokuPuzzle::new_basic_9_by_9([
        [0, 2, 3, 4, 5, 6, 7, 8, 0],
        [1, 0, 0, 0, 0, 0, 0, 0, 0],
        [9, 0, 0, 0, 0, 0, 0, 0, 0],
        [0, 0, 0, 0, 0, 0, 0, 0, 0],
        [0, 0, 0, 0, 0, 0, 0, 0, 0],
        [0, 0, 0, 0, 0, 0, 0, 0, 0],
        [0, 0, 0, 0, 0, 0, 0, 0, 0],
        [0, 0, 0, 0, 0, 0, 0, 0, 0],
        [0, 0, 0, 0, 0, 0, 0, 0, 0],
    ]);
    assert!(matches!(
        attempt_to_solve(&mut puzzle),
        Err(PuzzleError::Contradiction)
    ));
}

#[test]
fn an_empty_puzzle_solves_to_itself() {
    let mut puzzle = SudokuPuzzle::new(Vec::new()).unwrap();
    attempt_to_solve(&mut puzzle).unwrap();
    assert_eq!(puzzle.cell_count(), 0);
}
