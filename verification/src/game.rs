//! The game session: a board, a status message, the headers and footers
//! that a renderer shows, the start time of the current puzzle, and a
//! quit flag. All rules live in the board, solver and generator; this
//! type only strings them together for a front end.
use vstd::prelude::*;

use crate::board::{digit_at, can_place, solved_grid, Board, BoardError};
use crate::generator::{difficulty_target, empty_count, filled_count, BasicGenerator, Difficulty,
    Generator};
use crate::solver::{completable, SimpleSolver, Solver};
use vstd::string::StringExecFns;

verus! {

#[verifier::external_type_specification]
#[verifier::external_body]
pub struct ExInstant(std::time::Instant);

/// Relies on std::time::Instant::now: an opaque moment in time. Nothing
/// is assumed about its value.
#[verifier::external_body]
fn instant_now() -> std::time::Instant {
    std::time::Instant::now()
}

pub struct Game {
    board: Board,
    message: String,
    start_time: std::time::Instant,
    quit: bool,
    headers: Vec<String>,
    footers: Vec<String>,
}

impl Game {
    pub closed spec fn spec_board(self) -> Board {
        self.board
    }

    pub closed spec fn spec_message(self) -> Seq<char> {
        self.message@
    }

    pub closed spec fn spec_quit(self) -> bool {
        self.quit
    }

    pub closed spec fn spec_headers(self) -> Seq<Seq<char>> {
        self.headers@.map_values(|s: String| s@)
    }

    pub closed spec fn spec_footers(self) -> Seq<Seq<char>> {
        self.footers@.map_values(|s: String| s@)
    }

    pub closed spec fn spec_start_time(self) -> std::time::Instant {
        self.start_time
    }

    pub open spec fn wf(self) -> bool {
        self.spec_board().wf()
    }

    /// Everything but the board, the headers and the clock is the same
    /// in both states.
    pub open spec fn same_ui(a: Game, b: Game) -> bool {
        &&& a.spec_message() == b.spec_message()
        &&& a.spec_quit() == b.spec_quit()
        &&& a.spec_footers() == b.spec_footers()
    }

    /// A new game: a generated easy puzzle, a welcome message, and the
    /// help lines in the footer.
    pub fn new() -> (g: Game)
        ensures
            g.wf(),
            g.spec_message() == "Welcome"@,
            !g.spec_quit(),
            filled_count(g.spec_board().digits()) == 38,
            empty_count(g.spec_board().digits()) == 43,
            forall|r2: int, c2: int|
                0 <= r2 < 9 && 0 <= c2 < 9 ==> (#[trigger] g.spec_board().fixed_at(r2, c2)
                    <==> digit_at(g.spec_board().digits(), r2, c2) != 0),
            completable(g.spec_board().digits()),
            g.spec_headers().len() == 3,
            g.spec_headers()[2] == "Difficulty: "@ + "Easy"@,
            g.spec_footers().len() == 6,
            g.spec_footers()[0] == "   <R> <C> <V>: Set the value V in the cell at row R and column C."@,
            g.spec_footers()[1] == " clear <R> <C>: Clear the value in the cell at row R and column C."@,
            g.spec_footers()[2] == "       new <D>: Start a new sudoku with difficulty D in [easy, medium, hard, expert]."@,
            g.spec_footers()[3] == "         reset: Reset the current sudoku."@,
            g.spec_footers()[4] == "         solve: Solve the current sudoku."@,
            g.spec_footers()[5] == "          quit: Quit the game."@,
    {
        let mut footers: Vec<String> = Vec::new();
        footers.push(String::from_str("   <R> <C> <V>: Set the value V in the cell at row R and column C."));
        footers.push(String::from_str(" clear <R> <C>: Clear the value in the cell at row R and column C."));
        footers.push(String::from_str("       new <D>: Start a new sudoku with difficulty D in [easy, medium, hard, expert]."));
        footers.push(String::from_str("         reset: Reset the current sudoku."));
        footers.push(String::from_str("         solve: Solve the current sudoku."));
        footers.push(String::from_str("          quit: Quit the game."));
        let mut game = Game {
            board: Board::new(),
            message: String::from_str("Welcome"),
            start_time: instant_now(),
            quit: false,
            headers: Vec::new(),
            footers,
        };
        game.new_grid(Difficulty::Easy);
        game
    }

    pub fn board(&self) -> (r: &Board)
        ensures
            *r == self.spec_board(),
    {
        &self.board
    }

    pub fn message(&self) -> (r: &String)
        ensures
            r@ == self.spec_message(),
    {
        &self.message
    }

    pub fn set_message(&mut self, message: String)
        ensures
            final(self).spec_message() == message@,
            final(self).spec_board() == old(self).spec_board(),
            final(self).spec_quit() == old(self).spec_quit(),
            final(self).spec_headers() == old(self).spec_headers(),
            final(self).spec_footers() == old(self).spec_footers(),
            final(self).spec_start_time() == old(self).spec_start_time(),
    {
        self.message = message;
    }

    pub fn start_time(&self) -> (r: &std::time::Instant)
        ensures
            *r == self.spec_start_time(),
    {
        &self.start_time
    }

    pub fn headers(&self) -> (r: &Vec<String>)
        ensures
            r@.map_values(|s: String| s@) == self.spec_headers(),
    {
        &self.headers
    }

    pub fn footers(&self) -> (r: &Vec<String>)
        ensures
            r@.map_values(|s: String| s@) == self.spec_footers(),
    {
        &self.footers
    }

    /// Replaces the board with a freshly generated puzzle of the given
    /// difficulty, restarts the clock, and sets the headers.
    pub fn new_grid(&mut self, difficulty: Difficulty)
        ensures
            final(self).wf(),
            filled_count(final(self).spec_board().digits()) == difficulty_target(difficulty),
            empty_count(final(self).spec_board().digits()) == 81 - difficulty_target(difficulty),
            forall|r2: int, c2: int|
                0 <= r2 < 9 && 0 <= c2 < 9 ==> (#[trigger] final(self).spec_board().fixed_at(
                    r2,
                    c2,
                ) <==> digit_at(final(self).spec_board().digits(), r2, c2) != 0),
            completable(final(self).spec_board().digits()),
            final(self).spec_headers().len() == 3,
            final(self).spec_headers()[0] == "Sudoku"@,
            final(self).spec_headers()[1] == ""@,
            final(self).spec_headers()[2] == "Difficulty: "@ + match difficulty {
                Difficulty::Easy => "Easy"@,
                Difficulty::Medium => "Medium"@,
                Difficulty::Hard => "Hard"@,
                Difficulty::Expert => "Expert"@,
            },
            Game::same_ui(*final(self), *old(self)),
    {
        let mut headers: Vec<String> = Vec::new();
        headers.push(String::from_str("Sudoku"));
        headers.push(String::new());
        headers.push(String::from_str("Difficulty: ").concat(difficulty.name()));
        self.headers = headers;
        self.start_time = instant_now();
        self.board = BasicGenerator::new(difficulty).generate();
        proof {
            reveal_strlit("");
            assert(final(self).spec_headers()[1] =~= ""@);
        }
    }

    /// Writes a digit into a free cell of the board; 0 clears it. The
    /// board refuses locked cells and conflicting digits.
    pub fn fill_cell(&mut self, row: usize, col: usize, val: u8) -> (r: Result<(), BoardError>)
        requires
            old(self).wf(),
            row < 9,
            col < 9,
            val <= 9,
        ensures
            final(self).wf(),
            r == Err::<(), BoardError>(BoardError::FixedCellError) <==> old(self).spec_board()
                .fixed_at(row as int, col as int),
            r == Err::<(), BoardError>(BoardError::ForbiddenValueError) <==> (!old(
                self,
            ).spec_board().fixed_at(row as int, col as int) && val != 0 && !can_place(
                old(self).spec_board().digits(),
                row as int,
                col as int,
                val,
            )),
            r is Ok ==> final(self).spec_board().digits() == old(self).spec_board().digits()
                .update((row as int) * 9 + col as int, val),
            r is Err ==> final(self).spec_board() == old(self).spec_board(),
            Game::same_ui(*final(self), *old(self)),
            final(self).spec_start_time() == old(self).spec_start_time(),
            final(self).spec_headers() == old(self).spec_headers(),
    {
        self.board.set_value(row, col, val)
    }

    /// Tries to complete the board in place; on success the finished
    /// board is frozen. Returns whether a completion existed.
    pub fn solve(&mut self) -> (r: bool)
        requires
            old(self).wf(),
        ensures
            final(self).wf(),
            r <==> completable(old(self).spec_board().digits()),
            r ==> solved_grid(final(self).spec_board().digits()),
            r ==> forall|i: int|
                0 <= i < 81 && old(self).spec_board().digits()[i] != 0
                    ==> #[trigger] final(self).spec_board().digits()[i] == old(
                    self,
                ).spec_board().digits()[i],
            r ==> forall|r2: int, c2: int|
                0 <= r2 < 9 && 0 <= c2 < 9 ==> #[trigger] final(self).spec_board().fixed_at(
                    r2,
                    c2,
                ),
            !r ==> final(self).spec_board().digits() == old(self).spec_board().digits(),
            !r ==> forall|r2: int, c2: int|
                0 <= r2 < 9 && 0 <= c2 < 9 ==> #[trigger] final(self).spec_board().fixed_at(r2, c2)
                    == old(self).spec_board().fixed_at(r2, c2),
            Game::same_ui(*final(self), *old(self)),
    {
        let solved = SimpleSolver::new().solve(&mut self.board);
        if solved {
            proof {
                self.board.lemma_wf_grid();
                crate::solver::lemma_solved_filled(self.board.digits());
            }
            self.board.freeze();
        }
        solved
    }

    /// Locks every filled cell of the board.
    pub fn end(&mut self)
        requires
            old(self).wf(),
        ensures
            final(self).wf(),
            final(self).spec_board().digits() == old(self).spec_board().digits(),
            forall|r2: int, c2: int|
                0 <= r2 < 9 && 0 <= c2 < 9 ==> (#[trigger] final(self).spec_board().fixed_at(
                    r2,
                    c2,
                ) <==> digit_at(old(self).spec_board().digits(), r2, c2) != 0),
            Game::same_ui(*final(self), *old(self)),
    {
        self.board.freeze()
    }

    /// Empties every free cell of the board and restarts the clock.
    pub fn reset(&mut self)
        requires
            old(self).wf(),
        ensures
            final(self).wf(),
            forall|r2: int, c2: int|
                0 <= r2 < 9 && 0 <= c2 < 9 ==> #[trigger] final(self).spec_board().fixed_at(r2, c2)
                    == old(self).spec_board().fixed_at(r2, c2),
            forall|r2: int, c2: int|
                0 <= r2 < 9 && 0 <= c2 < 9 && old(self).spec_board().fixed_at(r2, c2)
                    ==> digit_at(final(self).spec_board().digits(), r2, c2) == digit_at(
                    old(self).spec_board().digits(),
                    r2,
                    c2,
                ),
            forall|r2: int, c2: int|
                0 <= r2 < 9 && 0 <= c2 < 9 && !old(self).spec_board().fixed_at(r2, c2)
                    ==> digit_at(final(self).spec_board().digits(), r2, c2) == 0,
            Game::same_ui(*final(self), *old(self)),
    {
        self.board.reset();
        self.start_time = instant_now();
    }

    /// Asks the session loop to stop.
    pub fn quit(&mut self)
        ensures
            final(self).spec_quit(),
            final(self).spec_board() == old(self).spec_board(),
            final(self).spec_message() == old(self).spec_message(),
    {
        self.quit = true;
    }

    pub fn is_quit(&self) -> (r: bool)
        ensures
            r == self.spec_quit(),
    {
        self.quit
    }
}

} // verus!
