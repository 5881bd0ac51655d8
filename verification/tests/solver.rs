use sudoku::board::Board;
use sudoku::solver::{SimpleSolver, Solver};

#[test]
fn test_solve_empty_board() {
    let mut board = Board::new();
    assert!(SimpleSolver::new().solve(&mut board));
    assert!(board.is_solved());
    for row in 0..9usize {
        for col in 0..9usize {
            let val = board.get_value(row, col).expect("cell left empty");
            assert!((1..=9).contains(&val));
        }
    }
}

#[test]
fn test_solve_keeps_existing_values() {
    let mut board = Board::new();
    assert_eq!(Ok(()), board.set_value(0, 0, 5));
    assert_eq!(Ok(()), board.set_value(4, 4, 1));
    board.freeze();
    assert!(SimpleSolver::new().solve(&mut board));
    assert!(board.is_solved());
    assert_eq!(Some(5), board.get_value(0, 0));
    assert_eq!(Some(1), board.get_value(4, 4));
}

#[test]
fn test_solve_unsolvable_board_unchanged() {
    let mut board = Board::new();
    // row 0 holds 1..8 in columns 0..8; a 9 in another row of column 8
    // starves cell (0, 8) of its last candidate
    for col in 0..8usize {
        assert_eq!(Ok(()), board.set_value(0, col, (col + 1) as u8));
    }
    assert_eq!(Ok(()), board.set_value(4, 8, 9));
    assert!(board.get_available_values(0, 8).is_empty());
    assert!(!SimpleSolver::new().solve(&mut board));
    // the failed solve left every cell as it was
    for col in 0..8usize {
        assert_eq!(Some((col + 1) as u8), board.get_value(0, col));
    }
    assert_eq!(Some(9), board.get_value(4, 8));
    assert_eq!(None, board.get_value(0, 8));
    for row in 1..4usize {
        for col in 0..9usize {
            assert_eq!(None, board.get_value(row, col));
        }
    }
}

#[test]
fn test_solved_board_has_no_duplicates() {
    let mut board = Board::new();
    assert!(SimpleSolver::new().solve(&mut board));
    for row in 0..9usize {
        for col in 0..9usize {
            let val = board.get_value(row, col).unwrap();
            for other in (col + 1)..9usize {
                assert_ne!(Some(val), board.get_value(row, other));
            }
            for other in (row + 1)..9usize {
                assert_ne!(Some(val), board.get_value(other, col));
            }
        }
    }
}
