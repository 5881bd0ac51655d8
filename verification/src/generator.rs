//! Puzzle generation: solve an empty board to get one full valid grid,
//! clear a difficulty-dependent number of cells at random positions, and
//! freeze the rest as givens. The puzzle inherits solvability from the
//! full grid it was carved out of; uniqueness of its solution is not
//! checked, by design.
use vstd::prelude::*;

use crate::board::{digit_at, Board, BOARD_SIZE};
use crate::solver::{completable, extends_grid, full_valid, lemma_empty_completable,
    lemma_solved_filled, SimpleSolver, Solver};
use vstd::arithmetic::div_mod::{lemma_fundamental_div_mod, lemma_mod_division_less_than_divisor};
use vstd::set_lib::{set_int_range, lemma_int_range, lemma_len_subset};

verus! {

/// A named tier, mapping to how many filled cells the puzzle keeps.
#[derive(Clone, Copy, Debug, PartialEq, Eq, Structural)]
pub enum Difficulty {
    Easy,
    Medium,
    Hard,
    Expert,
}

/// The number of cells a puzzle of each difficulty keeps filled.
pub open spec fn difficulty_target(d: Difficulty) -> int {
    match d {
        Difficulty::Easy => 38,
        Difficulty::Medium => 30,
        Difficulty::Hard => 25,
        Difficulty::Expert => 23,
    }
}

impl Difficulty {
    /// The tier's display name.
    pub fn name(self) -> (r: &'static str)
        ensures
            self is Easy ==> r@ == "Easy"@,
            self is Medium ==> r@ == "Medium"@,
            self is Hard ==> r@ == "Hard"@,
            self is Expert ==> r@ == "Expert"@,
    {
        match self {
            Difficulty::Easy => "Easy",
            Difficulty::Medium => "Medium",
            Difficulty::Hard => "Hard",
            Difficulty::Expert => "Expert",
        }
    }
}

/// The positions (in the 81-cell row-major grid) that hold a digit.
pub open spec fn filled_set(s: Seq<u8>) -> Set<int> {
    Set::new(|i: int| 0 <= i < 81 && s[i] != 0)
}

/// How many cells hold a digit.
pub open spec fn filled_count(s: Seq<u8>) -> int {
    filled_set(s).len() as int
}

/// The positions that are empty.
pub open spec fn empty_set(s: Seq<u8>) -> Set<int> {
    Set::new(|i: int| 0 <= i < 81 && s[i] == 0)
}

/// How many cells are empty.
pub open spec fn empty_count(s: Seq<u8>) -> int {
    empty_set(s).len() as int
}

/// Clearing one filled cell moves exactly one position from the filled
/// set to the empty set.
proof fn lemma_clear_one(s: Seq<u8>, pos: int)
    requires
        s.len() == 81,
        0 <= pos < 81,
        s[pos] != 0,
    ensures
        filled_count(s.update(pos, 0u8)) == filled_count(s) - 1,
        empty_count(s.update(pos, 0u8)) == empty_count(s) + 1,
{
    let s2 = s.update(pos, 0u8);
    lemma_int_range(0, 81);
    lemma_len_subset(filled_set(s), set_int_range(0, 81));
    lemma_len_subset(empty_set(s), set_int_range(0, 81));
    assert(filled_set(s2) =~= filled_set(s).remove(pos));
    assert(empty_set(s2) =~= empty_set(s).insert(pos));
    vstd::set::axiom_set_remove_len(filled_set(s), pos);
    vstd::set::axiom_set_insert_len(empty_set(s), pos);
}

/// A grid with every cell filled has 81 filled and no empty positions.
proof fn lemma_counts_full(s: Seq<u8>)
    requires
        s.len() == 81,
        forall|i: int| 0 <= i < 81 ==> #[trigger] s[i] != 0,
    ensures
        filled_count(s) == 81,
        empty_count(s) == 0,
{
    lemma_int_range(0, 81);
    assert(filled_set(s) =~= set_int_range(0, 81));
    assert(empty_set(s) =~= Set::empty());
}

pub trait Generator {
    /// How many filled cells the generated puzzle keeps.
    spec fn target(&self) -> int;

    /// A fresh puzzle: a well-formed board whose locked cells are
    /// exactly its filled cells, `self.target()` of them, the other
    /// `81 - self.target()` cells empty and free.
    fn generate(&self) -> (b: Board)
        requires
            0 <= self.target() <= 81,
        ensures
            b.wf(),
            forall|r2: int, c2: int|
                0 <= r2 < 9 && 0 <= c2 < 9 ==> (#[trigger] b.fixed_at(r2, c2) <==> digit_at(
                    b.digits(),
                    r2,
                    c2,
                ) != 0),
            filled_count(b.digits()) == self.target(),
            empty_count(b.digits()) == 81 - self.target(),
            completable(b.digits()),
    ;
}

pub struct BasicGenerator {
    nb_filled_cell: u8,
}

impl BasicGenerator {
    pub fn new(difficulty: Difficulty) -> (g: BasicGenerator)
        ensures
            g.target() == difficulty_target(difficulty),
    {
        let nb_filled_cell: u8 = match difficulty {
            Difficulty::Easy => 38,
            Difficulty::Medium => 30,
            Difficulty::Hard => 25,
            Difficulty::Expert => 23,
        };
        BasicGenerator { nb_filled_cell }
    }
}

impl Generator for BasicGenerator {
    closed spec fn target(&self) -> int {
        self.nb_filled_cell as int
    }

    fn generate(&self) -> (b: Board) {
        let mut board = Board::new();
        proof {
            lemma_empty_completable(board.digits());
        }
        let solved = SimpleSolver::new().solve(&mut board);
        proof {
            assert(solved);
            board.lemma_wf_grid();
            lemma_solved_filled(board.digits());
            lemma_counts_full(board.digits());
        }
        let total_cells = BOARD_SIZE * BOARD_SIZE;
        let mut cells: Vec<usize> = Vec::new();
        let mut i: usize = 0;
        while i < total_cells
            invariant
                total_cells == 81,
                i <= 81,
                cells@.len() == i as int,
                forall|x: int| 0 <= x < i ==> #[trigger] cells@[x] == x,
            decreases 81 - i,
        {
            cells.push(i);
            i = i + 1;
        }
        let ghost orig = cells@;
        crate::rng::shuffle(&mut cells);
        proof {
            orig.to_multiset_ensures();
            cells@.to_multiset_ensures();
            assert(orig.no_duplicates());
            orig.lemma_multiset_has_no_duplicates();
            cells@.lemma_multiset_has_no_duplicates_conv();
            assert(cells@.no_duplicates());
            assert(cells@.len() == 81);
            assert forall|x: int| 0 <= x < 81 implies #[trigger] cells@[x] < 81 by {
                assert(cells@.contains(cells@[x]));
                assert(cells@.to_multiset().count(cells@[x]) > 0);
                assert(orig.contains(cells@[x]));
                let y = choose|y: int| 0 <= y < orig.len() && orig[y] == cells@[x];
                assert(orig[y] == y);
            }
        }
        let ghost sol0 = board.digits();
        let n_clear = total_cells - self.nb_filled_cell as usize;
        let mut j: usize = 0;
        while j < n_clear
            invariant
                board.wf(),
                n_clear as int == 81 - self.target(),
                n_clear <= 81,
                j <= n_clear,
                cells@.len() == 81,
                cells@.no_duplicates(),
                forall|x: int| 0 <= x < 81 ==> #[trigger] cells@[x] < 81,
                forall|r2: int, c2: int|
                    0 <= r2 < 9 && 0 <= c2 < 9 ==> !(#[trigger] board.fixed_at(r2, c2)),
                board.digits().len() == 81,
                forall|i2: int|
                    0 <= i2 < 81 ==> ((#[trigger] board.digits()[i2] == 0) <==> exists|x: int|
                        0 <= x < j && #[trigger] cells@[x] as int == i2),
                filled_count(board.digits()) == 81 - j,
                empty_count(board.digits()) == j as int,
                full_valid(sol0),
                forall|i2: int|
                    0 <= i2 < 81 && #[trigger] board.digits()[i2] != 0 ==> board.digits()[i2]
                        == sol0[i2],
            decreases n_clear - j,
        {
            let pos = cells[j];
            let row = pos / BOARD_SIZE;
            let col = pos % BOARD_SIZE;
            proof {
                lemma_fundamental_div_mod(pos as int, 9);
                lemma_mod_division_less_than_divisor(pos as int, 9);
                assert(row < 9 && col < 9 && (row as int) * 9 + (col as int) == pos as int);
                assert(board.digits()[pos as int] != 0) by {
                    if exists|x: int| 0 <= x < j && #[trigger] cells@[x] as int == pos as int {
                        let x = choose|x: int| 0 <= x < j && #[trigger] cells@[x] as int
                            == pos as int;
                        assert(cells@[x] == cells@[j as int]);
                        assert(false);
                    }
                }
            }
            let ghost before = board;
            let res = board.clear_value(row, col);
            proof {
                assert(res is Ok);
                assert(board.digits() == before.digits().update(pos as int, 0u8));
                lemma_clear_one(before.digits(), pos as int);
                assert forall|i2: int| 0 <= i2 < 81 implies ((#[trigger] board.digits()[i2] == 0)
                    <==> exists|x: int| 0 <= x < j + 1 && #[trigger] cells@[x] as int == i2) by {
                    if i2 == pos as int {
                        assert(cells@[j as int] as int == i2);
                    } else {
                        assert(board.digits()[i2] == before.digits()[i2]);
                        if exists|x: int| 0 <= x < j + 1 && #[trigger] cells@[x] as int == i2 {
                            let x = choose|x: int| 0 <= x < j + 1 && #[trigger] cells@[x] as int
                                == i2;
                            assert(x < j);
                            assert(cells@[x] as int == i2);
                        }
                    }
                }
            }
            j = j + 1;
        }
        board.freeze();
        proof {
            assert(extends_grid(sol0, board.digits()));
            assert(completable(board.digits()));
        }
        board
    }
}

} // verus!
