use sudoku::board::{digit_mask, Board, BoardError};
use sudoku::solver::{SimpleSolver, Solver};

#[test]
fn test_fnf_from_u16() {
    let expected: [u16; 10] = [0, 1, 2, 4, 8, 16, 32, 64, 128, 256];
    (0..10u16).into_iter().for_each(|i| {
        assert_eq!(expected[i as usize], digit_mask(i as u8));
    })
}

#[test]
fn test_compute_box_index() {
    (0..3usize).into_iter().for_each(|row| {
        (0..3usize).into_iter().for_each(|col| {
            assert_eq!(0, Board::compute_box_index(row, col));
        })
    })
}

#[test]
fn test_is_solved() {
    let mut board = Board::new();
    assert!(!board.is_solved());

    SimpleSolver::new().solve(&mut board);
    assert!(board.is_solved())
}

#[test]
fn test_box_index_all_cells() {
    assert_eq!(4, Board::compute_box_index(4, 4));
    assert_eq!(8, Board::compute_box_index(8, 8));
    assert_eq!(2, Board::compute_box_index(1, 7));
    assert_eq!(6, Board::compute_box_index(7, 1));
}

#[test]
fn test_place_digit_scenario() {
    let mut board = Board::new();
    assert_eq!(Ok(()), board.set_value(0, 0, 5));
    assert_eq!(Some(5), board.get_value(0, 0));
    // the occupied cell no longer offers its own digit
    assert_eq!(vec![1, 2, 3, 4, 6, 7, 8, 9], board.get_available_values(0, 0));
    // the same row loses 5
    assert!(!board.get_available_values(0, 1).contains(&5));
    // a cell in another row, column and box still offers 5
    assert!(board.get_available_values(3, 3).contains(&5));
}

#[test]
fn test_set_value_on_fixed_cell() {
    let mut board = Board::new();
    assert_eq!(Ok(()), board.set_value(0, 0, 5));
    board.freeze();
    assert!(board.is_fixed_value(0, 0));
    assert_eq!(Err(BoardError::FixedCellError), board.set_value(0, 0, 1));
    assert_eq!(Err(BoardError::FixedCellError), board.set_value(0, 0, 0));
    assert_eq!(Err(BoardError::FixedCellError), board.clear_value(0, 0));
    assert_eq!(Some(5), board.get_value(0, 0));
}

#[test]
fn test_forbidden_value() {
    let mut board = Board::new();
    assert_eq!(Ok(()), board.set_value(0, 0, 5));
    // same row
    assert_eq!(Err(BoardError::ForbiddenValueError), board.set_value(0, 8, 5));
    // same column
    assert_eq!(Err(BoardError::ForbiddenValueError), board.set_value(8, 0, 5));
    // same box
    assert_eq!(Err(BoardError::ForbiddenValueError), board.set_value(1, 1, 5));
    // re-placing the cell's own digit is refused as well
    assert_eq!(Err(BoardError::ForbiddenValueError), board.set_value(0, 0, 5));
    // an unrelated cell is fine
    assert_eq!(Ok(()), board.set_value(4, 4, 5));
}

#[test]
fn test_set_then_clear_roundtrip() {
    let mut board = Board::new();
    let before = board.get_available_values(4, 4);
    assert_eq!(Ok(()), board.set_value(4, 4, 7));
    assert_eq!(Ok(()), board.clear_value(4, 4));
    assert_eq!(None, board.get_value(4, 4));
    assert_eq!(before, board.get_available_values(4, 4));
}

#[test]
fn test_set_zero_clears() {
    let mut board = Board::new();
    assert_eq!(Ok(()), board.set_value(2, 2, 3));
    assert_eq!(Some(3), board.get_value(2, 2));
    assert_eq!(Ok(()), board.set_value(2, 2, 0));
    assert_eq!(None, board.get_value(2, 2));
    assert!(board.get_available_values(2, 2).contains(&3));
}

#[test]
fn test_clear_empty_cell_is_ok() {
    let mut board = Board::new();
    assert_eq!(Ok(()), board.clear_value(6, 6));
    assert_eq!(None, board.get_value(6, 6));
}

#[test]
fn test_fill_row_leaves_one_candidate() {
    let mut board = Board::new();
    for col in 0..8usize {
        assert_eq!(Ok(()), board.set_value(0, col, (col + 1) as u8));
    }
    assert_eq!(vec![9], board.get_available_values(0, 8));
    assert_eq!(Ok(()), board.set_value(0, 8, 9));
    // one finished row does not solve the board
    assert!(!board.is_solved());
}

#[test]
fn test_reset_keeps_fixed_cells() {
    let mut board = Board::new();
    assert_eq!(Ok(()), board.set_value(0, 0, 1));
    board.freeze();
    assert_eq!(Ok(()), board.set_value(0, 1, 2));
    board.reset();
    assert_eq!(Some(1), board.get_value(0, 0));
    assert!(board.is_fixed_value(0, 0));
    assert_eq!(None, board.get_value(0, 1));
    assert!(!board.is_fixed_value(0, 1));
    // the cleared digit is a candidate again
    assert!(board.get_available_values(0, 1).contains(&2));
}

#[test]
fn test_available_values_sorted() {
    let mut board = Board::new();
    assert_eq!(Ok(()), board.set_value(0, 3, 4));
    assert_eq!(Ok(()), board.set_value(0, 5, 8));
    let avail = board.get_available_values(0, 0);
    assert_eq!(vec![1, 2, 3, 5, 6, 7, 9], avail);
}

#[test]
fn test_full_grid_solves_only_at_the_end() {
    let mut board = Board::new();
    for row in 0..9usize {
        for col in 0..9usize {
            let v = ((row * 3 + row / 3 + col) % 9 + 1) as u8;
            assert!(!board.is_solved());
            assert_eq!(Ok(()), board.set_value(row, col, v));
        }
    }
    assert!(board.is_solved());
}
