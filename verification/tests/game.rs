use sudoku::board::BoardError;
use sudoku::game::Game;
use sudoku::generator::Difficulty;

#[test]
fn test_new_game() {
    let game = Game::new();
    assert_eq!("Welcome", game.message());
    assert!(!game.is_quit());
    assert_eq!(3, game.headers().len());
    assert_eq!("Sudoku", game.headers()[0]);
    assert_eq!("", game.headers()[1]);
    assert_eq!("Difficulty: Easy", game.headers()[2]);
    assert_eq!(6, game.footers().len());
    let mut filled = 0;
    for row in 0..9usize {
        for col in 0..9usize {
            if game.board().get_value(row, col).is_some() {
                filled += 1;
            }
        }
    }
    assert_eq!(38, filled);
}

#[test]
fn test_new_grid_sets_header() {
    let mut game = Game::new();
    game.new_grid(Difficulty::Expert);
    assert_eq!("Difficulty: Expert", game.headers()[2]);
}

#[test]
fn test_fill_cell_rejects_givens() {
    let mut game = Game::new();
    let mut hit_fixed = false;
    for row in 0..9usize {
        for col in 0..9usize {
            if game.board().is_fixed_value(row, col) {
                assert_eq!(Err(BoardError::FixedCellError), game.fill_cell(row, col, 1));
                hit_fixed = true;
            }
        }
    }
    assert!(hit_fixed);
}

#[test]
fn test_solve_finishes_game() {
    let mut game = Game::new();
    assert!(game.solve());
    assert!(game.board().is_solved());
    // the finished board is frozen: every cell is locked
    for row in 0..9usize {
        for col in 0..9usize {
            assert!(game.board().is_fixed_value(row, col));
        }
    }
}

#[test]
fn test_reset_restores_puzzle() {
    let mut game = Game::new();
    // fill one free cell with some legal digit, then reset
    let mut target = None;
    'outer: for row in 0..9usize {
        for col in 0..9usize {
            if game.board().get_value(row, col).is_none() {
                let avail = game.board().get_available_values(row, col);
                if let Some(v) = avail.first() {
                    target = Some((row, col, *v));
                    break 'outer;
                }
            }
        }
    }
    let (row, col, v) = target.expect("no free cell in a fresh puzzle");
    assert_eq!(Ok(()), game.fill_cell(row, col, v));
    assert_eq!(Some(v), game.board().get_value(row, col));
    game.reset();
    assert_eq!(None, game.board().get_value(row, col));
}

#[test]
fn test_quit_and_message() {
    let mut game = Game::new();
    game.set_message(String::from("Bye"));
    assert_eq!("Bye", game.message());
    assert!(!game.is_quit());
    game.quit();
    assert!(game.is_quit());
}
