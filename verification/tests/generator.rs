use sudoku::board::Board;
use sudoku::generator::{BasicGenerator, Difficulty, Generator};
use sudoku::solver::{SimpleSolver, Solver};

fn count_cells(board: &Board) -> (usize, usize, usize) {
    let mut fixed = 0;
    let mut filled = 0;
    let mut empty = 0;
    for row in 0..9usize {
        for col in 0..9usize {
            if board.is_fixed_value(row, col) {
                fixed += 1;
            }
            match board.get_value(row, col) {
                Some(_) => filled += 1,
                None => empty += 1,
            }
        }
    }
    (fixed, filled, empty)
}

fn check_counts(difficulty: Difficulty, want_filled: usize) {
    let board = BasicGenerator::new(difficulty).generate();
    let (fixed, filled, empty) = count_cells(&board);
    assert_eq!(want_filled, fixed);
    assert_eq!(want_filled, filled);
    assert_eq!(81 - want_filled, empty);
}

#[test]
fn test_generate_easy_counts() {
    check_counts(Difficulty::Easy, 38);
}

#[test]
fn test_generate_medium_counts() {
    check_counts(Difficulty::Medium, 30);
}

#[test]
fn test_generate_hard_counts() {
    check_counts(Difficulty::Hard, 25);
}

#[test]
fn test_generate_expert_counts() {
    check_counts(Difficulty::Expert, 23);
}

#[test]
fn test_generated_puzzle_is_solvable() {
    let mut board = BasicGenerator::new(Difficulty::Expert).generate();
    assert!(!board.is_solved());
    assert!(SimpleSolver::new().solve(&mut board));
    assert!(board.is_solved());
}

#[test]
fn test_generated_givens_are_locked() {
    let board = BasicGenerator::new(Difficulty::Easy).generate();
    for row in 0..9usize {
        for col in 0..9usize {
            assert_eq!(board.is_fixed_value(row, col), board.get_value(row, col).is_some());
        }
    }
}

#[test]
fn test_difficulty_names() {
    assert_eq!("Easy", Difficulty::Easy.name());
    assert_eq!("Medium", Difficulty::Medium.name());
    assert_eq!("Hard", Difficulty::Hard.name());
    assert_eq!("Expert", Difficulty::Expert.name());
}
