//! Backtracking search over the board: walks the 81 cells in row-major
//! order, trying every still-available digit at each empty cell. The
//! candidate order is shuffled, so repeated solves may find different
//! completions; whether one exists at all is deterministic, and the
//! contract of `solve` pins it down exactly.
use vstd::prelude::*;

use crate::board::{
    digit_at, row_has, col_has, box_has, can_place, all_unique, rows_unique, cols_unique,
    boxes_unique, solved_grid, box_index_of, Board, BOARD_SIZE,
};
use vstd::arithmetic::div_mod::{
    lemma_fundamental_div_mod, lemma_fundamental_div_mod_converse,
    lemma_mod_division_less_than_divisor, lemma_add_mod_noop, lemma_small_mod,
};
use vstd::set_lib::{set_int_range, lemma_int_range, lemma_len_subset, lemma_subset_equality,
    lemma_map_size};
use vstd::relations::injective_on;

verus! {

/// A complete valid assignment: 81 digits, all 1..=9, none repeated in
/// any row, column or box.
pub open spec fn full_valid(s: Seq<u8>) -> bool {
    &&& s.len() == 81
    &&& forall|i: int| 0 <= i < 81 ==> 1 <= #[trigger] s[i] <= 9
    &&& all_unique(s)
}

/// Every digit already on the board `t` appears unchanged in `s`.
pub open spec fn extends_grid(s: Seq<u8>, t: Seq<u8>) -> bool {
    forall|i: int| 0 <= i < 81 && #[trigger] t[i] != 0 ==> s[i] == t[i]
}

/// The board admits at least one complete valid filling.
pub open spec fn completable(t: Seq<u8>) -> bool {
    exists|s: Seq<u8>| full_valid(s) && extends_grid(s, t)
}

/// Every cell before flat index n holds a digit.
pub open spec fn prefix_filled(t: Seq<u8>, n: int) -> bool {
    forall|i: int| 0 <= i < n ==> #[trigger] t[i] != 0
}

/// A fully occupied row with no repeats holds each of the nine digits:
/// nine distinct values drawn from {1..9} must cover it.
proof fn lemma_full_row_has_all(s: Seq<u8>, r: int)
    requires
        s.len() == 81,
        0 <= r < 9,
        forall|c: int| 0 <= c < 9 ==> 1 <= #[trigger] digit_at(s, r, c) <= 9,
        rows_unique(s),
    ensures
        forall|d: u8| 1 <= d <= 9 ==> row_has(s, r, d),
{
    let cols = set_int_range(0, 9);
    let f = |c: int| digit_at(s, r, c) as int;
    lemma_int_range(0, 9);
    lemma_int_range(1, 10);
    assert(injective_on(f, cols));
    let img = cols.map(f);
    lemma_map_size(cols, img, f);
    assert(img.subset_of(set_int_range(1, 10))) by {
        assert forall|x: int| img.contains(x) implies set_int_range(1, 10).contains(x) by {
            let c = choose|c: int| cols.contains(c) && x == f(c);
            assert(1 <= digit_at(s, r, c) <= 9);
        }
    }
    lemma_len_subset(img, set_int_range(1, 10));
    lemma_subset_equality(img, set_int_range(1, 10));
    assert forall|d: u8| 1 <= d <= 9 implies row_has(s, r, d) by {
        assert(set_int_range(1, 10).contains(d as int));
        assert(img.contains(d as int));
        let c = choose|c: int| cols.contains(c) && d as int == f(c);
        assert(digit_at(s, r, c) == d);
    }
}

/// A row that holds each of the nine digits has no empty cell: each
/// digit takes one of the nine columns, so the columns are used up.
proof fn lemma_all_digits_row_filled(s: Seq<u8>, r: int)
    requires
        s.len() == 81,
        0 <= r < 9,
        forall|c: int| 0 <= c < 9 ==> #[trigger] digit_at(s, r, c) <= 9,
        rows_unique(s),
        forall|d: u8| 1 <= d <= 9 ==> row_has(s, r, d),
    ensures
        forall|c: int| 0 <= c < 9 ==> 1 <= #[trigger] digit_at(s, r, c),
{
    let digs = set_int_range(1, 10);
    let g = |d: int| choose|c: int| 0 <= c < 9 && digit_at(s, r, c) == d as u8;
    lemma_int_range(1, 10);
    lemma_int_range(0, 9);
    assert forall|d: int| digs.contains(d) implies 0 <= #[trigger] g(d) < 9 && digit_at(
        s,
        r,
        g(d),
    ) == d as u8 by {
        assert(1 <= d as u8 <= 9);
        assert(row_has(s, r, d as u8));
        let c0 = choose|c: int| 0 <= c < 9 && digit_at(s, r, c) == d as u8;
        assert(0 <= g(d) < 9 && digit_at(s, r, g(d)) == d as u8);
    }
    assert(injective_on(g, digs));
    let img = digs.map(g);
    lemma_map_size(digs, img, g);
    assert(img.subset_of(set_int_range(0, 9))) by {
        assert forall|x: int| img.contains(x) implies set_int_range(0, 9).contains(x) by {
            let d = choose|d: int| digs.contains(d) && x == g(d);
        }
    }
    lemma_len_subset(img, set_int_range(0, 9));
    lemma_subset_equality(img, set_int_range(0, 9));
    assert forall|c: int| 0 <= c < 9 implies 1 <= #[trigger] digit_at(s, r, c) by {
        assert(set_int_range(0, 9).contains(c));
        assert(img.contains(c));
        let d = choose|d: int| digs.contains(d) && c == g(d);
        assert(digit_at(s, r, c) == d as u8);
    }
}

/// A grid with every cell filled and no repeats is solved, and a solved
/// grid of a well-formed board is completely filled and valid.
pub proof fn lemma_filled_solved(s: Seq<u8>)
    requires
        s.len() == 81,
        all_unique(s),
        forall|i: int| 0 <= i < 81 ==> 1 <= #[trigger] s[i] <= 9,
    ensures
        solved_grid(s),
        full_valid(s),
{
    assert forall|r: int, d: u8| 0 <= r < 9 && 1 <= d <= 9 implies row_has(s, r, d) by {
        assert forall|c: int| 0 <= c < 9 implies 1 <= #[trigger] digit_at(s, r, c) <= 9 by {
            assert(0 <= r * 9 + c < 81);
        }
        lemma_full_row_has_all(s, r);
    }
}

/// A solved grid has no empty cell left, so it is a complete valid
/// assignment.
pub proof fn lemma_solved_filled(s: Seq<u8>)
    requires
        s.len() == 81,
        all_unique(s),
        forall|i: int| 0 <= i < 81 ==> #[trigger] s[i] <= 9,
        solved_grid(s),
    ensures
        full_valid(s),
{
    assert forall|i: int| 0 <= i < 81 implies 1 <= #[trigger] s[i] <= 9 by {
        lemma_fundamental_div_mod(i, 9);
        lemma_mod_division_less_than_divisor(i, 9);
        let r = i / 9;
        let c = i % 9;
        assert(0 <= r < 9);
        assert forall|c2: int| 0 <= c2 < 9 implies #[trigger] digit_at(s, r, c2) <= 9 by {
            assert(0 <= r * 9 + c2 < 81);
        }
        lemma_all_digits_row_filled(s, r);
        assert(1 <= digit_at(s, r, c));
        assert(r * 9 + c == i);
    }
}

/// Two nonnegative numbers less than nine apart have different
/// remainders modulo nine.
proof fn lemma_mod9_distinct(a: int, b: int)
    requires
        0 <= a,
        a < b,
        b - a < 9,
    ensures
        a % 9 != b % 9,
{
    lemma_fundamental_div_mod(a, 9);
    lemma_mod_division_less_than_divisor(a, 9);
    let q = a / 9;
    let ra = a % 9;
    let k = b - a;
    if ra + k < 9 {
        lemma_fundamental_div_mod_converse(b, 9, q, ra + k);
    } else {
        lemma_fundamental_div_mod_converse(b, 9, q + 1, ra + k - 9);
    }
}

/// The digit of one fixed valid reference grid: row r is the sequence
/// 1..=9 rotated left by 3*r + r/3 places.
spec fn pattern_digit(r: int, c: int) -> u8 {
    (((3 * r + r / 3 + c) % 9) + 1) as u8
}

spec fn pattern_grid() -> Seq<u8> {
    Seq::new(81, |i: int| pattern_digit(i / 9, i % 9))
}

spec fn row_offset(r: int) -> int {
    (3 * r + r / 3) % 9
}

proof fn lemma_row_offset_at(r: int, q3: int, m3: int, q9: int, m9: int)
    requires
        0 <= r < 9,
        r == q3 * 3 + m3,
        0 <= m3 < 3,
        3 * r + q3 == q9 * 9 + m9,
        0 <= m9 < 9,
    ensures
        r / 3 == q3,
        row_offset(r) == m9,
{
    lemma_fundamental_div_mod_converse(r, 3, q3, m3);
    lemma_fundamental_div_mod_converse(3 * r + q3, 9, q9, m9);
}

/// The nine row rotations are pairwise different modulo nine.
proof fn lemma_row_offset_table()
    ensures
        forall|r: int| 0 <= r < 9 ==> 0 <= #[trigger] row_offset(r) < 9,
        forall|r1: int, r2: int|
            0 <= r1 < 9 && 0 <= r2 < 9 && r1 != r2 ==> #[trigger] row_offset(r1)
                != #[trigger] row_offset(r2),
        forall|r: int| 0 <= r < 9 ==> 0 <= #[trigger] (r / 3) < 3,
{
    lemma_row_offset_at(0, 0, 0, 0, 0);
    lemma_row_offset_at(1, 0, 1, 0, 3);
    lemma_row_offset_at(2, 0, 2, 0, 6);
    lemma_row_offset_at(3, 1, 0, 1, 1);
    lemma_row_offset_at(4, 1, 1, 1, 4);
    lemma_row_offset_at(5, 1, 2, 1, 7);
    lemma_row_offset_at(6, 2, 0, 2, 2);
    lemma_row_offset_at(7, 2, 1, 2, 5);
    lemma_row_offset_at(8, 2, 2, 2, 8);
    assert forall|r: int| 0 <= r < 9 implies 0 <= #[trigger] row_offset(r) < 9 && 0 <= r / 3
        < 3 by {
        assert(r == 0 || r == 1 || r == 2 || r == 3 || r == 4 || r == 5 || r == 6 || r == 7 || r
            == 8);
    }
    assert forall|r1: int, r2: int|
        0 <= r1 < 9 && 0 <= r2 < 9 && r1 != r2 implies #[trigger] row_offset(r1)
        != #[trigger] row_offset(r2) by {
        assert(r1 == 0 || r1 == 1 || r1 == 2 || r1 == 3 || r1 == 4 || r1 == 5 || r1 == 6 || r1
            == 7 || r1 == 8);
        assert(r2 == 0 || r2 == 1 || r2 == 2 || r2 == 3 || r2 == 4 || r2 == 5 || r2 == 6 || r2
            == 8 || r2 == 7);
    }
}

/// The reference grid is a complete valid assignment.
#[verifier::rlimit(100)]
proof fn lemma_pattern_valid()
    ensures
        full_valid(pattern_grid()),
{
    let p = pattern_grid();
    lemma_row_offset_table();
    assert forall|r: int, c: int| 0 <= r < 9 && 0 <= c < 9 implies digit_at(p, r, c)
        == pattern_digit(r, c) by {
        lemma_fundamental_div_mod_converse(r * 9 + c, 9, r, c);
    }
    assert forall|r: int, c: int| 0 <= r < 9 && 0 <= c < 9 implies 1 <= #[trigger] pattern_digit(
        r,
        c,
    ) <= 9 by {
        lemma_mod_division_less_than_divisor(3 * r + r / 3 + c, 9);
    }
    assert forall|i: int| 0 <= i < 81 implies 1 <= #[trigger] p[i] <= 9 by {
        lemma_fundamental_div_mod(i, 9);
        lemma_mod_division_less_than_divisor(i, 9);
        let r = i / 9;
        let c = i % 9;
        assert(0 <= r < 9);
        assert(p[i] == pattern_digit(r, c));
    }
    assert(rows_unique(p)) by {
        assert forall|r: int, c1: int, c2: int|
            0 <= r < 9 && 0 <= c1 < 9 && 0 <= c2 < 9 && c1 != c2 && digit_at(p, r, c1)
                != 0 implies digit_at(p, r, c1) != digit_at(p, r, c2) by {
            let base = 3 * r + r / 3;
            assert(0 <= r / 3 < 3);
            lemma_mod_division_less_than_divisor(base + c1, 9);
            lemma_mod_division_less_than_divisor(base + c2, 9);
            if c1 < c2 {
                lemma_mod9_distinct(base + c1, base + c2);
            } else {
                lemma_mod9_distinct(base + c2, base + c1);
            }
        }
    }
    assert(cols_unique(p)) by {
        assert forall|c: int, r1: int, r2: int|
            0 <= c < 9 && 0 <= r1 < 9 && 0 <= r2 < 9 && r1 != r2 && digit_at(p, r1, c)
                != 0 implies digit_at(p, r1, c) != digit_at(p, r2, c) by {
            let b1 = 3 * r1 + r1 / 3;
            let b2 = 3 * r2 + r2 / 3;
            lemma_add_mod_noop(b1, c, 9);
            lemma_add_mod_noop(b2, c, 9);
            lemma_small_mod(c as nat, 9);
            let t1 = row_offset(r1);
            let t2 = row_offset(r2);
            assert((b1 + c) % 9 == (t1 + c) % 9) by {
                lemma_small_mod(t1 as nat, 9);
                lemma_add_mod_noop(t1, c, 9);
            }
            assert((b2 + c) % 9 == (t2 + c) % 9) by {
                lemma_small_mod(t2 as nat, 9);
                lemma_add_mod_noop(t2, c, 9);
            }
            lemma_mod_division_less_than_divisor(b1 + c, 9);
            lemma_mod_division_less_than_divisor(b2 + c, 9);
            if t1 < t2 {
                lemma_mod9_distinct(t1 + c, t2 + c);
            } else {
                lemma_mod9_distinct(t2 + c, t1 + c);
            }
        }
    }
    assert(boxes_unique(p)) by {
        assert forall|r1: int, c1: int, r2: int, c2: int|
            0 <= r1 < 9 && 0 <= c1 < 9 && 0 <= r2 < 9 && 0 <= c2 < 9 && box_index_of(r1, c1)
                == box_index_of(r2, c2) && !(r1 == r2 && c1 == c2) && digit_at(p, r1, c1)
                != 0 implies digit_at(p, r1, c1) != digit_at(p, r2, c2) by {
            lemma_fundamental_div_mod(r1, 3);
            lemma_mod_division_less_than_divisor(r1, 3);
            lemma_fundamental_div_mod(r2, 3);
            lemma_mod_division_less_than_divisor(r2, 3);
            lemma_fundamental_div_mod(c1, 3);
            lemma_mod_division_less_than_divisor(c1, 3);
            lemma_fundamental_div_mod(c2, 3);
            lemma_mod_division_less_than_divisor(c2, 3);
            assert(r1 / 3 == r2 / 3 && c1 / 3 == c2 / 3);
            let bigr = r1 / 3;
            let bigc = c1 / 3;
            let j1 = r1 % 3;
            let j2 = r2 % 3;
            let k1 = c1 % 3;
            let k2 = c2 % 3;
            assert(!(j1 == j2 && k1 == k2));
            let a1 = 3 * r1 + r1 / 3 + c1;
            let a2 = 3 * r2 + r2 / 3 + c2;
            assert(a1 == 10 * bigr + 3 * bigc + 3 * j1 + k1);
            assert(a2 == 10 * bigr + 3 * bigc + 3 * j2 + k2);
            assert(3 * j1 + k1 != 3 * j2 + k2);
            lemma_mod_division_less_than_divisor(a1, 9);
            lemma_mod_division_less_than_divisor(a2, 9);
            if a1 < a2 {
                lemma_mod9_distinct(a1, a2);
            } else {
                lemma_mod9_distinct(a2, a1);
            }
        }
    }
}

/// An empty board can always be completed: the reference grid fills it.
pub proof fn lemma_empty_completable(t: Seq<u8>)
    requires
        t.len() == 81,
        forall|i: int| 0 <= i < 81 ==> #[trigger] t[i] == 0,
    ensures
        completable(t),
{
    lemma_pattern_valid();
    assert(extends_grid(pattern_grid(), t));
}

/// A completion's digit at an empty cell is placeable there right now:
/// a conflicting digit on the board would reappear in the completion and
/// collide with it.
proof fn lemma_witness_available(sol: Seq<u8>, t: Seq<u8>, r: int, c: int)
    requires
        t.len() == 81,
        0 <= r < 9,
        0 <= c < 9,
        digit_at(t, r, c) == 0,
        full_valid(sol),
        extends_grid(sol, t),
    ensures
        1 <= sol[r * 9 + c] <= 9,
        can_place(t, r, c, sol[r * 9 + c]),
{
    let d = sol[r * 9 + c];
    assert(0 <= r * 9 + c < 81);
    assert(1 <= d <= 9);
    if row_has(t, r, d) {
        let c2 = choose|c2: int| 0 <= c2 < 9 && digit_at(t, r, c2) == d;
        assert(0 <= r * 9 + c2 < 81);
        assert(sol[r * 9 + c2] == d);
        assert(digit_at(sol, r, c2) == d && digit_at(sol, r, c) == d);
        assert(c2 != c);
        assert(false);
    }
    if col_has(t, c, d) {
        let r2 = choose|r2: int| 0 <= r2 < 9 && digit_at(t, r2, c) == d;
        assert(0 <= r2 * 9 + c < 81);
        assert(sol[r2 * 9 + c] == d);
        assert(digit_at(sol, r2, c) == d && digit_at(sol, r, c) == d);
        assert(r2 != r);
        assert(false);
    }
    if box_has(t, box_index_of(r, c), d) {
        let (r2, c2) = choose|r2: int, c2: int|
            0 <= r2 < 9 && 0 <= c2 < 9 && box_index_of(r2, c2) == box_index_of(r, c) && digit_at(
                t,
                r2,
                c2,
            ) == d;
        assert(0 <= r2 * 9 + c2 < 81);
        assert(sol[r2 * 9 + c2] == d);
        assert(digit_at(sol, r2, c2) == d && digit_at(sol, r, c) == d);
        assert(!(r2 == r && c2 == c));
        assert(false);
    }
}

pub trait Solver {
    /// Whether the board as it stands can be completed to a full valid
    /// grid. If so, the board is filled in place with one such
    /// completion, keeping every digit already present; if not, its
    /// digits are left exactly as they were. Locked cells never change.
    fn solve(&self, board: &mut Board) -> (r: bool)
        requires
            old(board).wf(),
        ensures
            final(board).wf(),
            r <==> completable(old(board).digits()),
            forall|i: int|
                0 <= i < 81 && old(board).digits()[i] != 0 ==> #[trigger] final(board).digits()[i]
                    == old(board).digits()[i],
            forall|r2: int, c2: int|
                0 <= r2 < 9 && 0 <= c2 < 9 ==> #[trigger] final(board).fixed_at(r2, c2) == old(
                    board,
                ).fixed_at(r2, c2),
            r ==> solved_grid(final(board).digits()),
            !r ==> final(board).digits() == old(board).digits(),
    ;
}

pub struct SimpleSolver;

impl Solver for SimpleSolver {
    /// Runs the search twice: once on a throwaway copy to learn whether
    /// a completion exists at all, and only then on the real board.
    fn solve(&self, board: &mut Board) -> (r: bool) {
        let mut scratch = board.clone();
        if SimpleSolver::fill_cell(&mut scratch, 0, 0) {
            proof {
                scratch.lemma_wf_grid();
                lemma_solved_filled(scratch.digits());
                assert(extends_grid(scratch.digits(), board.digits()));
                assert(completable(board.digits()));
            }
            let res = SimpleSolver::fill_cell(board, 0, 0);
            proof {
                assert(res);
            }
            res
        } else {
            proof {
                assert(!completable(board.digits()));
            }
            false
        }
    }
}

impl SimpleSolver {
    pub fn new() -> (s: SimpleSolver) {
        SimpleSolver
    }

    fn next_cell(row: usize, col: usize) -> (next: (usize, usize))
        requires
            row < 9,
            col < 9,
        ensures
            (next.0 as int) * 9 + (next.1 as int) == (row as int) * 9 + (col as int) + 1,
            (next.0 < 9 && next.1 < 9) || (next.0 == 9 && next.1 == 0),
    {
        let cell = row * BOARD_SIZE + col + 1;
        proof {
            lemma_fundamental_div_mod(cell as int, 9);
            lemma_mod_division_less_than_divisor(cell as int, 9);
        }
        (cell / BOARD_SIZE, cell % BOARD_SIZE)
    }

    /// The search from flat index row*9+col on, all earlier cells being
    /// filled: true means the board now holds a full valid grid; false
    /// means no completion existed and the board is untouched.
    fn fill_cell(board: &mut Board, row: usize, col: usize) -> (r: bool)
        requires
            old(board).wf(),
            (row < 9 && col < 9) || (row == 9 && col == 0),
            prefix_filled(old(board).digits(), (row as int) * 9 + (col as int)),
        ensures
            final(board).wf(),
            forall|i: int|
                0 <= i < 81 && old(board).digits()[i] != 0 ==> #[trigger] final(board).digits()[i]
                    == old(board).digits()[i],
            forall|r2: int, c2: int|
                0 <= r2 < 9 && 0 <= c2 < 9 ==> #[trigger] final(board).fixed_at(r2, c2) == old(
                    board,
                ).fixed_at(r2, c2),
            r ==> solved_grid(final(board).digits()),
            !r ==> final(board).digits() == old(board).digits(),
            !r ==> !completable(old(board).digits()),
        decreases 82 - (row as int) * 9 - (col as int),
    {
        if row == BOARD_SIZE || col == BOARD_SIZE {
            proof {
                board.lemma_wf_grid();
                assert forall|i: int| 0 <= i < 81 implies 1 <= #[trigger] board.digits()[i]
                    <= 9 by {
                    assert(board.digits()[i] != 0);
                }
                lemma_filled_solved(board.digits());
            }
            return true;
        }
        if board.get_value(row, col).is_some() {
            proof {
                assert(digit_at(board.digits(), row as int, col as int) != 0);
                assert forall|i: int|
                    0 <= i < (row as int) * 9 + (col as int) + 1 implies #[trigger] board.digits()[i]
                    != 0 by {}
            }
            let next = Self::next_cell(row, col);
            return Self::fill_cell(board, next.0, next.1);
        }
        proof {
            board.lemma_wf_grid();
        }
        let mut available_values = board.get_available_values(row, col);
        let ghost avl0 = available_values@;
        crate::rng::shuffle(&mut available_values);
        proof {
            avl0.to_multiset_ensures();
            available_values@.to_multiset_ensures();
            assert forall|d: u8| #[trigger] available_values@.contains(d) <==> (1 <= d <= 9
                && can_place(old(board).digits(), row as int, col as int, d)) by {
                assert(available_values@.contains(d) <==> available_values@.to_multiset().count(d)
                    > 0);
                assert(avl0.contains(d) <==> avl0.to_multiset().count(d) > 0);
            }
            assert forall|sol: Seq<u8>|
                full_valid(sol) && #[trigger] extends_grid(sol, old(board).digits())
                    implies available_values@.subrange(
                    0,
                    available_values@.len() as int,
                ).contains(sol[(row as int) * 9 + (col as int)]) by {
                lemma_witness_available(sol, old(board).digits(), row as int, col as int);
                assert(available_values@.contains(sol[(row as int) * 9 + (col as int)]));
                assert(available_values@.subrange(0, available_values@.len() as int)
                    =~= available_values@);
            }
        }
        let mut k: usize = 0;
        while k < available_values.len()
            invariant
                board.wf(),
                old(board).wf(),
                row < 9,
                col < 9,
                k <= available_values@.len(),
                board.digits() == old(board).digits(),
                forall|r2: int, c2: int|
                    0 <= r2 < 9 && 0 <= c2 < 9 ==> #[trigger] board.fixed_at(r2, c2) == old(
                        board,
                    ).fixed_at(r2, c2),
                digit_at(old(board).digits(), row as int, col as int) == 0,
                prefix_filled(old(board).digits(), (row as int) * 9 + (col as int)),
                forall|d: u8|
                    #[trigger] available_values@.contains(d) ==> (1 <= d <= 9 && can_place(
                        old(board).digits(),
                        row as int,
                        col as int,
                        d,
                    )),
                forall|sol: Seq<u8>|
                    full_valid(sol) && #[trigger] extends_grid(sol, old(board).digits())
                        ==> available_values@.subrange(
                        k as int,
                        available_values@.len() as int,
                    ).contains(sol[(row as int) * 9 + (col as int)]),
            decreases available_values@.len() - k,
        {
            let ghost idx = (row as int) * 9 + (col as int);
            let val = available_values[k];
            proof {
                assert(available_values@.contains(val));
                board.lemma_wf_grid();
                assert(digit_at(board.digits(), row as int, col as int) == 0);
                assert(!board.fixed_at(row as int, col as int));
            }
            let ghost g0 = *board;
            let set_res = board.set_value(row, col, val);
            proof {
                assert(set_res is Ok);
                assert(board.digits() == old(board).digits().update(idx, val));
                assert forall|i: int| 0 <= i < idx + 1 implies #[trigger] board.digits()[i]
                    != 0 by {
                    if i < idx {
                        assert(old(board).digits()[i] != 0);
                    }
                }
            }
            let next = Self::next_cell(row, col);
            let ghost mid = *board;
            if Self::fill_cell(board, next.0, next.1) {
                proof {
                    assert forall|i: int|
                        0 <= i < 81 && old(board).digits()[i] != 0 implies #[trigger] board.digits()[i]
                        == old(board).digits()[i] by {
                        assert(i != idx);
                        assert(mid.digits()[i] == old(board).digits()[i]);
                        assert(board.digits()[i] == mid.digits()[i]);
                    }
                    assert forall|r2: int, c2: int|
                        0 <= r2 < 9 && 0 <= c2 < 9 implies #[trigger] board.fixed_at(r2, c2) == old(
                        board,
                    ).fixed_at(r2, c2) by {
                        assert(board.fixed_at(r2, c2) == mid.fixed_at(r2, c2));
                        assert(mid.fixed_at(r2, c2) == g0.fixed_at(r2, c2));
                    }
                }
                return true;
            }
            let ghost after_rec = *board;
            proof {
                assert(after_rec.digits() == mid.digits());
                assert(after_rec.fixed_at(row as int, col as int) == g0.fixed_at(
                    row as int,
                    col as int,
                ));
            }
            let clear_res = board.clear_value(row, col);
            proof {
                assert(clear_res is Ok);
                assert(board.digits() == mid.digits().update(idx, 0u8));
                assert(board.digits() =~= old(board).digits());
                assert forall|r2: int, c2: int|
                    0 <= r2 < 9 && 0 <= c2 < 9 implies #[trigger] board.fixed_at(r2, c2) == old(
                    board,
                ).fixed_at(r2, c2) by {
                    assert(board.fixed_at(r2, c2) == after_rec.fixed_at(r2, c2));
                    assert(after_rec.fixed_at(r2, c2) == mid.fixed_at(r2, c2));
                    assert(mid.fixed_at(r2, c2) == g0.fixed_at(r2, c2));
                }
                let len = available_values@.len() as int;
                assert forall|sol: Seq<u8>|
                    full_valid(sol) && #[trigger] extends_grid(sol, old(board).digits())
                        implies available_values@.subrange(k + 1, len).contains(sol[idx]) by {
                    assert(available_values@.subrange(k as int, len).contains(sol[idx]));
                    if sol[idx] == val {
                        assert forall|i: int|
                            0 <= i < 81 && mid.digits()[i] != 0 implies #[trigger] sol[i]
                            == mid.digits()[i] by {
                            if i != idx {
                                assert(mid.digits()[i] == old(board).digits()[i]);
                            }
                        }
                        assert(extends_grid(sol, mid.digits()));
                        assert(completable(mid.digits()));
                        assert(false);
                    }
                    let sub = available_values@.subrange(k as int, len);
                    let j = choose|j: int| 0 <= j < sub.len() && sub[j] == sol[idx];
                    assert(j != 0);
                    assert(available_values@.subrange(k + 1, len)[j - 1] == sol[idx]);
                }
            }
            k = k + 1;
        }
        proof {
            let idx = (row as int) * 9 + (col as int);
            if completable(old(board).digits()) {
                let sol = choose|sol: Seq<u8>|
                    full_valid(sol) && extends_grid(sol, old(board).digits());
                assert(extends_grid(sol, old(board).digits()));
                assert(available_values@.subrange(
                    k as int,
                    available_values@.len() as int,
                ).contains(sol[idx]));
                assert(available_values@.subrange(k as int, available_values@.len() as int).len()
                    == 0);
                assert(false);
            }
        }
        false
    }
}

} // verus!
