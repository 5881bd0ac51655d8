//! The 9x9 sudoku board: cells tagged fixed or free, together with one
//! 9-bit candidate mask per row, column and box. The masks cache which
//! digits are still unused in each unit; `wf` ties them to the cells.
use vstd::prelude::*;

verus! {

pub const BOARD_BOX_SIZE: usize = 3;

pub const BOARD_SIZE: usize = 9;

/// A digit in [0, 9]; 0 means "empty".
#[derive(Clone, Copy, Debug, PartialEq, Eq, Structural)]
pub struct Value(pub u8);

/// A cell is either locked (a puzzle given or part of a finished solve)
/// or freely editable.
#[derive(Clone, Copy, Debug, PartialEq, Eq, Structural)]
pub enum Cell {
    Fixed(Value),
    Free(Value),
}

/// The two ways a board mutation can be refused.
#[derive(Clone, Copy, Debug, PartialEq, Eq, Structural)]
pub enum BoardError {
    /// The target cell is locked.
    FixedCellError,
    /// Placing the digit would repeat it in a row, column or box.
    ForbiddenValueError,
}

pub open spec fn cell_digit(cell: Cell) -> u8 {
    match cell {
        Cell::Fixed(v) => v.0,
        Cell::Free(v) => v.0,
    }
}

pub open spec fn cell_is_fixed(cell: Cell) -> bool {
    cell is Fixed
}

/// Digits are in range, and a locked cell is never empty.
pub open spec fn cell_ok(cell: Cell) -> bool {
    cell_digit(cell) <= 9 && (cell_is_fixed(cell) ==> cell_digit(cell) >= 1)
}

/// The digit stored at (r, c) in a flattened 81-entry digit grid.
pub open spec fn digit_at(s: Seq<u8>, r: int, c: int) -> u8 {
    s[r * 9 + c]
}

pub open spec fn box_index_of(r: int, c: int) -> int {
    (r / 3) * 3 + c / 3
}

pub open spec fn row_has(s: Seq<u8>, r: int, d: u8) -> bool {
    exists|c: int| 0 <= c < 9 && digit_at(s, r, c) == d
}

pub open spec fn col_has(s: Seq<u8>, c: int, d: u8) -> bool {
    exists|r: int| 0 <= r < 9 && digit_at(s, r, c) == d
}

pub open spec fn box_has(s: Seq<u8>, b: int, d: u8) -> bool {
    exists|r: int, c: int|
        0 <= r < 9 && 0 <= c < 9 && box_index_of(r, c) == b && digit_at(s, r, c) == d
}

/// Digit d may be written at (r, c) without repeating it in the cell's
/// row, column or box. The cell's own current digit counts as used.
pub open spec fn can_place(s: Seq<u8>, r: int, c: int, d: u8) -> bool {
    &&& !row_has(s, r, d)
    &&& !col_has(s, c, d)
    &&& !box_has(s, box_index_of(r, c), d)
}

pub open spec fn rows_unique(s: Seq<u8>) -> bool {
    forall|r: int, c1: int, c2: int|
        #![trigger digit_at(s, r, c1), digit_at(s, r, c2)]
        0 <= r < 9 && 0 <= c1 < 9 && 0 <= c2 < 9 && c1 != c2 && digit_at(s, r, c1) != 0
            ==> digit_at(s, r, c1) != digit_at(s, r, c2)
}

pub open spec fn cols_unique(s: Seq<u8>) -> bool {
    forall|c: int, r1: int, r2: int|
        #![trigger digit_at(s, r1, c), digit_at(s, r2, c)]
        0 <= c < 9 && 0 <= r1 < 9 && 0 <= r2 < 9 && r1 != r2 && digit_at(s, r1, c) != 0
            ==> digit_at(s, r1, c) != digit_at(s, r2, c)
}

pub open spec fn boxes_unique(s: Seq<u8>) -> bool {
    forall|r1: int, c1: int, r2: int, c2: int|
        #![trigger digit_at(s, r1, c1), digit_at(s, r2, c2)]
        0 <= r1 < 9 && 0 <= c1 < 9 && 0 <= r2 < 9 && 0 <= c2 < 9
            && box_index_of(r1, c1) == box_index_of(r2, c2) && !(r1 == r2 && c1 == c2)
            && digit_at(s, r1, c1) != 0 ==> digit_at(s, r1, c1) != digit_at(s, r2, c2)
}

/// No digit repeats in any row, column or box.
pub open spec fn all_unique(s: Seq<u8>) -> bool {
    rows_unique(s) && cols_unique(s) && boxes_unique(s)
}

/// Every row contains every digit; with `all_unique` this means the
/// grid is completely and validly filled.
pub open spec fn solved_grid(s: Seq<u8>) -> bool {
    forall|r: int, d: u8| 0 <= r < 9 && 1 <= d <= 9 ==> row_has(s, r, d)
}

/// The mask bit that stands for digit d, 1 <= d <= 9.
pub open spec fn mask_bit(d: u8) -> u16 {
    1u16 << ((d - 1) as u16)
}

/// Digit d is present in the 9-bit candidate mask m.
pub open spec fn mask_has(m: u16, d: u8) -> bool {
    (m >> ((d - 1) as u16)) & 1u16 == 1u16
}

proof fn lemma_mask_full()
    by (bit_vector)
    ensures
        forall|e: u8| 1 <= e <= 9 ==> mask_has(511u16, e),
{
}

proof fn lemma_mask_set(m: u16, d: u8)
    by (bit_vector)
    requires
        1 <= d <= 9,
        m < 512,
    ensures
        m | mask_bit(d) < 512,
        forall|e: u8| 1 <= e <= 9 ==> (mask_has(m | mask_bit(d), e) <==> (e == d || mask_has(m, e))),
{
}

proof fn lemma_mask_clear(m: u16, d: u8)
    by (bit_vector)
    requires
        1 <= d <= 9,
        m < 512,
    ensures
        m & !mask_bit(d) < 512,
        forall|e: u8| 1 <= e <= 9 ==> (mask_has(m & !mask_bit(d), e) <==> (e != d && mask_has(m, e))),
{
}

proof fn lemma_mask_and(m1: u16, m2: u16)
    by (bit_vector)
    ensures
        forall|e: u8| 1 <= e <= 9 ==> (mask_has(m1 & m2, e) <==> (mask_has(m1, e) && mask_has(m2, e))),
{
}

proof fn lemma_mask_zero(m: u16)
    requires
        m < 512,
    ensures
        (m == 0) <==> (forall|e: u8| 1 <= e <= 9 ==> !mask_has(m, e)),
{
    if m == 0 {
        assert(forall|e: u8| 1 <= e <= 9 ==> !mask_has(0u16, e)) by (bit_vector);
    } else {
        assert(mask_has(m, 1) || mask_has(m, 2) || mask_has(m, 3) || mask_has(m, 4) || mask_has(
            m,
            5,
        ) || mask_has(m, 6) || mask_has(m, 7) || mask_has(m, 8) || mask_has(m, 9)) by (bit_vector)
            requires
                m < 512 && m != 0,
        ;
    }
}

proof fn lemma_mask_contains(m: u16, d: u8)
    by (bit_vector)
    requires
        1 <= d <= 9,
    ensures
        (m & mask_bit(d)) == mask_bit(d) <==> mask_has(m, d),
{
}

proof fn lemma_mask_and_zero(m: u16)
    by (bit_vector)
    ensures
        m & 0 == 0,
{
}

/// The flag bits of the candidate masks: digit 0 maps to the empty
/// flag, digits 1..=9 to their single mask bit.
pub fn digit_mask(d: u8) -> (r: u16)
    requires
        d <= 9,
    ensures
        d == 0 ==> r == 0,
        d >= 1 ==> r == mask_bit(d),
{
    if d == 0 {
        0
    } else {
        1u16 << ((d - 1) as u16)
    }
}

fn mask_test(m: u16, d: u8) -> (r: bool)
    requires
        1 <= d <= 9,
    ensures
        r == mask_has(m, d),
{
    ((m >> ((d - 1) as u16)) & 1) == 1
}

impl Cell {
    fn new(val: u8, fixed: bool) -> (c: Cell)
        requires
            val <= 9,
            fixed ==> val >= 1,
        ensures
            cell_digit(c) == val,
            cell_is_fixed(c) == fixed,
            cell_ok(c),
    {
        let v = Value(val);
        if fixed {
            Cell::Fixed(v)
        } else {
            Cell::Free(v)
        }
    }

    fn lock(cell: Cell) -> (c: Cell)
        requires
            cell_ok(cell),
            cell_digit(cell) >= 1,
        ensures
            cell_digit(c) == cell_digit(cell),
            cell_is_fixed(c),
            cell_ok(c),
    {
        let val = match cell {
            Cell::Fixed(v) => v.0,
            Cell::Free(v) => v.0,
        };
        Cell::new(val, true)
    }
}

/// Two flat positions are equal as soon as their row-major indices are.
proof fn lemma_index_inj(r1: int, c1: int, r2: int, c2: int)
    requires
        0 <= r1 < 9,
        0 <= c1 < 9,
        0 <= r2 < 9,
        0 <= c2 < 9,
        r1 * 9 + c1 == r2 * 9 + c2,
    ensures
        r1 == r2 && c1 == c2,
{
}

/// Writing one cell of the cell grid updates the digit grid at the same
/// position and nowhere else.
proof fn lemma_digits_update(cells: Seq<Cell>, i: int, cell: Cell)
    requires
        0 <= i < cells.len(),
    ensures
        cells.update(i, cell).map_values(|x: Cell| cell_digit(x)) == cells.map_values(
            |x: Cell| cell_digit(x),
        ).update(i, cell_digit(cell)),
{
    let lhs = cells.update(i, cell).map_values(|x: Cell| cell_digit(x));
    let rhs = cells.map_values(|x: Cell| cell_digit(x)).update(i, cell_digit(cell));
    assert forall|j: int| 0 <= j < cells.len() implies lhs[j] == rhs[j] by {}
    assert(lhs =~= rhs);
}

/// How clearing the digit at (r, c) changes what each unit contains:
/// the cleared digit leaves its three units, everything else stays.
proof fn lemma_clear_preserves(s: Seq<u8>, r: int, c: int)
    requires
        s.len() == 81,
        0 <= r < 9,
        0 <= c < 9,
        1 <= digit_at(s, r, c) <= 9,
        all_unique(s),
    ensures
        all_unique(s.update(r * 9 + c, 0u8)),
        forall|e: u8|
            1 <= e <= 9 ==> (#[trigger] row_has(s.update(r * 9 + c, 0u8), r, e) <==> (e != digit_at(
                s,
                r,
                c,
            ) && row_has(s, r, e))),
        forall|u: int, e: u8|
            0 <= u < 9 && u != r && 1 <= e <= 9 ==> (#[trigger] row_has(
                s.update(r * 9 + c, 0u8),
                u,
                e,
            ) <==> row_has(s, u, e)),
        forall|e: u8|
            1 <= e <= 9 ==> (#[trigger] col_has(s.update(r * 9 + c, 0u8), c, e) <==> (e != digit_at(
                s,
                r,
                c,
            ) && col_has(s, c, e))),
        forall|u: int, e: u8|
            0 <= u < 9 && u != c && 1 <= e <= 9 ==> (#[trigger] col_has(
                s.update(r * 9 + c, 0u8),
                u,
                e,
            ) <==> col_has(s, u, e)),
        forall|e: u8|
            1 <= e <= 9 ==> (#[trigger] box_has(s.update(r * 9 + c, 0u8), box_index_of(r, c), e)
                <==> (e != digit_at(s, r, c) && box_has(s, box_index_of(r, c), e))),
        forall|u: int, e: u8|
            0 <= u < 9 && u != box_index_of(r, c) && 1 <= e <= 9 ==> (#[trigger] box_has(
                s.update(r * 9 + c, 0u8),
                u,
                e,
            ) <==> box_has(s, u, e)),
{
    let v = digit_at(s, r, c);
    let s2 = s.update(r * 9 + c, 0u8);
    assert forall|r2: int, c2: int| 0 <= r2 < 9 && 0 <= c2 < 9 implies digit_at(s2, r2, c2) == (
        if r2 == r && c2 == c {
            0u8
        } else {
            digit_at(s, r2, c2)
        }
    ) by {
        assert(0 <= r2 * 9 + c2 < 81);
        if r2 * 9 + c2 == r * 9 + c {
            lemma_index_inj(r2, c2, r, c);
        }
    }
    assert forall|e: u8| 1 <= e <= 9 implies (row_has(s2, r, e) <==> (e != v && row_has(
        s,
        r,
        e,
    ))) by {
        if row_has(s2, r, e) {
            let c2 = choose|c2: int| 0 <= c2 < 9 && digit_at(s2, r, c2) == e;
            assert(c2 != c);
            assert(digit_at(s, r, c2) == e);
            assert(e != v);  // rows_unique: cells (r, c) holds v, (r, c2) holds e
        }
        if e != v && row_has(s, r, e) {
            let c2 = choose|c2: int| 0 <= c2 < 9 && digit_at(s, r, c2) == e;
            assert(c2 != c);
            assert(digit_at(s2, r, c2) == e);
        }
    }
    assert forall|u: int, e: u8| 0 <= u < 9 && u != r && 1 <= e <= 9 implies (row_has(s2, u, e)
        <==> row_has(s, u, e)) by {
        if row_has(s2, u, e) {
            let c2 = choose|c2: int| 0 <= c2 < 9 && digit_at(s2, u, c2) == e;
            assert(digit_at(s, u, c2) == e);
        }
        if row_has(s, u, e) {
            let c2 = choose|c2: int| 0 <= c2 < 9 && digit_at(s, u, c2) == e;
            assert(digit_at(s2, u, c2) == e);
        }
    }
    assert forall|e: u8| 1 <= e <= 9 implies (col_has(s2, c, e) <==> (e != v && col_has(
        s,
        c,
        e,
    ))) by {
        if col_has(s2, c, e) {
            let r2 = choose|r2: int| 0 <= r2 < 9 && digit_at(s2, r2, c) == e;
            assert(r2 != r);
            assert(digit_at(s, r2, c) == e);
            assert(e != v);
        }
        if e != v && col_has(s, c, e) {
            let r2 = choose|r2: int| 0 <= r2 < 9 && digit_at(s, r2, c) == e;
            assert(r2 != r);
            assert(digit_at(s2, r2, c) == e);
        }
    }
    assert forall|u: int, e: u8| 0 <= u < 9 && u != c && 1 <= e <= 9 implies (col_has(s2, u, e)
        <==> col_has(s, u, e)) by {
        if col_has(s2, u, e) {
            let r2 = choose|r2: int| 0 <= r2 < 9 && digit_at(s2, r2, u) == e;
            assert(digit_at(s, r2, u) == e);
        }
        if col_has(s, u, e) {
            let r2 = choose|r2: int| 0 <= r2 < 9 && digit_at(s, r2, u) == e;
            assert(digit_at(s2, r2, u) == e);
        }
    }
    let b = box_index_of(r, c);
    assert forall|e: u8| 1 <= e <= 9 implies (box_has(s2, b, e) <==> (e != v && box_has(
        s,
        b,
        e,
    ))) by {
        if box_has(s2, b, e) {
            let (r2, c2) = choose|r2: int, c2: int|
                0 <= r2 < 9 && 0 <= c2 < 9 && box_index_of(r2, c2) == b && digit_at(s2, r2, c2)
                    == e;
            assert(!(r2 == r && c2 == c));
            assert(digit_at(s, r2, c2) == e);
            assert(e != v);
        }
        if e != v && box_has(s, b, e) {
            let (r2, c2) = choose|r2: int, c2: int|
                0 <= r2 < 9 && 0 <= c2 < 9 && box_index_of(r2, c2) == b && digit_at(s, r2, c2) == e;
            assert(!(r2 == r && c2 == c));
            assert(digit_at(s2, r2, c2) == e);
        }
    }
    assert forall|u: int, e: u8| 0 <= u < 9 && u != b && 1 <= e <= 9 implies (box_has(s2, u, e)
        <==> box_has(s, u, e)) by {
        if box_has(s2, u, e) {
            let (r2, c2) = choose|r2: int, c2: int|
                0 <= r2 < 9 && 0 <= c2 < 9 && box_index_of(r2, c2) == u && digit_at(s2, r2, c2)
                    == e;
            assert(!(r2 == r && c2 == c));
            assert(digit_at(s, r2, c2) == e);
        }
        if box_has(s, u, e) {
            let (r2, c2) = choose|r2: int, c2: int|
                0 <= r2 < 9 && 0 <= c2 < 9 && box_index_of(r2, c2) == u && digit_at(s, r2, c2)
                    == e;
            assert(!(r2 == r && c2 == c));
            assert(digit_at(s2, r2, c2) == e);
        }
    }
}

/// How placing digit d at the empty cell (r, c) changes what each unit
/// contains: d joins its three units, everything else stays, and no
/// duplicate appears because d was placeable.
proof fn lemma_place_preserves(s: Seq<u8>, r: int, c: int, d: u8)
    requires
        s.len() == 81,
        0 <= r < 9,
        0 <= c < 9,
        1 <= d <= 9,
        digit_at(s, r, c) == 0,
        can_place(s, r, c, d),
        all_unique(s),
    ensures
        all_unique(s.update(r * 9 + c, d)),
        forall|e: u8|
            1 <= e <= 9 ==> (#[trigger] row_has(s.update(r * 9 + c, d), r, e) <==> (e == d
                || row_has(s, r, e))),
        forall|u: int, e: u8|
            0 <= u < 9 && u != r && 1 <= e <= 9 ==> (#[trigger] row_has(s.update(r * 9 + c, d), u, e)
                <==> row_has(s, u, e)),
        forall|e: u8|
            1 <= e <= 9 ==> (#[trigger] col_has(s.update(r * 9 + c, d), c, e) <==> (e == d
                || col_has(s, c, e))),
        forall|u: int, e: u8|
            0 <= u < 9 && u != c && 1 <= e <= 9 ==> (#[trigger] col_has(s.update(r * 9 + c, d), u, e)
                <==> col_has(s, u, e)),
        forall|e: u8|
            1 <= e <= 9 ==> (#[trigger] box_has(s.update(r * 9 + c, d), box_index_of(r, c), e) <==> (
            e == d || box_has(s, box_index_of(r, c), e))),
        forall|u: int, e: u8|
            0 <= u < 9 && u != box_index_of(r, c) && 1 <= e <= 9 ==> (#[trigger] box_has(
                s.update(r * 9 + c, d),
                u,
                e,
            ) <==> box_has(s, u, e)),
{
    let s2 = s.update(r * 9 + c, d);
    assert forall|r2: int, c2: int| 0 <= r2 < 9 && 0 <= c2 < 9 implies digit_at(s2, r2, c2) == (
        if r2 == r && c2 == c {
            d
        } else {
            digit_at(s, r2, c2)
        }
    ) by {
        assert(0 <= r2 * 9 + c2 < 81);
        if r2 * 9 + c2 == r * 9 + c {
            lemma_index_inj(r2, c2, r, c);
        }
    }
    assert forall|e: u8| 1 <= e <= 9 implies (row_has(s2, r, e) <==> (e == d || row_has(
        s,
        r,
        e,
    ))) by {
        if row_has(s2, r, e) && e != d {
            let c2 = choose|c2: int| 0 <= c2 < 9 && digit_at(s2, r, c2) == e;
            assert(c2 != c);
            assert(digit_at(s, r, c2) == e);
        }
        if e == d {
            assert(digit_at(s2, r, c) == e);
        }
        if row_has(s, r, e) {
            let c2 = choose|c2: int| 0 <= c2 < 9 && digit_at(s, r, c2) == e;
            assert(c2 != c);
            assert(digit_at(s2, r, c2) == e);
        }
    }
    assert forall|u: int, e: u8| 0 <= u < 9 && u != r && 1 <= e <= 9 implies (row_has(s2, u, e)
        <==> row_has(s, u, e)) by {
        if row_has(s2, u, e) {
            let c2 = choose|c2: int| 0 <= c2 < 9 && digit_at(s2, u, c2) == e;
            assert(digit_at(s, u, c2) == e);
        }
        if row_has(s, u, e) {
            let c2 = choose|c2: int| 0 <= c2 < 9 && digit_at(s, u, c2) == e;
            assert(digit_at(s2, u, c2) == e);
        }
    }
    assert forall|e: u8| 1 <= e <= 9 implies (col_has(s2, c, e) <==> (e == d || col_has(
        s,
        c,
        e,
    ))) by {
        if col_has(s2, c, e) && e != d {
            let r2 = choose|r2: int| 0 <= r2 < 9 && digit_at(s2, r2, c) == e;
            assert(r2 != r);
            assert(digit_at(s, r2, c) == e);
        }
        if e == d {
            assert(digit_at(s2, r, c) == e);
        }
        if col_has(s, c, e) {
            let r2 = choose|r2: int| 0 <= r2 < 9 && digit_at(s, r2, c) == e;
            assert(r2 != r);
            assert(digit_at(s2, r2, c) == e);
        }
    }
    assert forall|u: int, e: u8| 0 <= u < 9 && u != c && 1 <= e <= 9 implies (col_has(s2, u, e)
        <==> col_has(s, u, e)) by {
        if col_has(s2, u, e) {
            let r2 = choose|r2: int| 0 <= r2 < 9 && digit_at(s2, r2, u) == e;
            assert(digit_at(s, r2, u) == e);
        }
        if col_has(s, u, e) {
            let r2 = choose|r2: int| 0 <= r2 < 9 && digit_at(s, r2, u) == e;
            assert(digit_at(s2, r2, u) == e);
        }
    }
    let b = box_index_of(r, c);
    assert forall|e: u8| 1 <= e <= 9 implies (box_has(s2, b, e) <==> (e == d || box_has(
        s,
        b,
        e,
    ))) by {
        if box_has(s2, b, e) && e != d {
            let (r2, c2) = choose|r2: int, c2: int|
                0 <= r2 < 9 && 0 <= c2 < 9 && box_index_of(r2, c2) == b && digit_at(s2, r2, c2)
                    == e;
            assert(!(r2 == r && c2 == c));
            assert(digit_at(s, r2, c2) == e);
        }
        if e == d {
            assert(digit_at(s2, r, c) == e);
        }
        if box_has(s, b, e) {
            let (r2, c2) = choose|r2: int, c2: int|
                0 <= r2 < 9 && 0 <= c2 < 9 && box_index_of(r2, c2) == b && digit_at(s, r2, c2) == e;
            assert(!(r2 == r && c2 == c));
            assert(digit_at(s2, r2, c2) == e);
        }
    }
    assert forall|u: int, e: u8| 0 <= u < 9 && u != b && 1 <= e <= 9 implies (box_has(s2, u, e)
        <==> box_has(s, u, e)) by {
        if box_has(s2, u, e) {
            let (r2, c2) = choose|r2: int, c2: int|
                0 <= r2 < 9 && 0 <= c2 < 9 && box_index_of(r2, c2) == u && digit_at(s2, r2, c2)
                    == e;
            assert(!(r2 == r && c2 == c));
            assert(digit_at(s, r2, c2) == e);
        }
        if box_has(s, u, e) {
            let (r2, c2) = choose|r2: int, c2: int|
                0 <= r2 < 9 && 0 <= c2 < 9 && box_index_of(r2, c2) == u && digit_at(s, r2, c2)
                    == e;
            assert(!(r2 == r && c2 == c));
            assert(digit_at(s2, r2, c2) == e);
        }
    }
    assert(rows_unique(s2)) by {
        assert forall|r2: int, c1: int, c2: int|
            0 <= r2 < 9 && 0 <= c1 < 9 && 0 <= c2 < 9 && c1 != c2 && digit_at(s2, r2, c1)
                != 0 implies digit_at(s2, r2, c1) != digit_at(s2, r2, c2) by {
            if r2 == r && c1 == c {
                assert(digit_at(s2, r2, c2) == digit_at(s, r2, c2));
                assert(!row_has(s, r, d));
            } else if r2 == r && c2 == c {
                assert(digit_at(s2, r2, c1) == digit_at(s, r2, c1));
                assert(!row_has(s, r, d));
            } else {
            }
        }
    }
    assert(cols_unique(s2)) by {
        assert forall|c2: int, r1: int, r2: int|
            0 <= c2 < 9 && 0 <= r1 < 9 && 0 <= r2 < 9 && r1 != r2 && digit_at(s2, r1, c2)
                != 0 implies digit_at(s2, r1, c2) != digit_at(s2, r2, c2) by {
            if c2 == c && r1 == r {
                assert(digit_at(s2, r2, c2) == digit_at(s, r2, c2));
                assert(!col_has(s, c, d));
            } else if c2 == c && r2 == r {
                assert(digit_at(s2, r1, c2) == digit_at(s, r1, c2));
                assert(!col_has(s, c, d));
            } else {
            }
        }
    }
    assert(boxes_unique(s2)) by {
        assert forall|r1: int, c1: int, r2: int, c2: int|
            0 <= r1 < 9 && 0 <= c1 < 9 && 0 <= r2 < 9 && 0 <= c2 < 9 && box_index_of(r1, c1)
                == box_index_of(r2, c2) && !(r1 == r2 && c1 == c2) && digit_at(s2, r1, c1)
                != 0 implies digit_at(s2, r1, c1) != digit_at(s2, r2, c2) by {
            if r1 == r && c1 == c {
                assert(digit_at(s2, r2, c2) == digit_at(s, r2, c2));
                assert(!box_has(s, b, d));
            } else if r2 == r && c2 == c {
                assert(digit_at(s2, r1, c1) == digit_at(s, r1, c1));
                assert(!box_has(s, b, d));
            } else {
            }
        }
    }
}

/// The board: 81 cells in row-major order plus the three families of
/// candidate masks.
pub struct Board {
    free_number_rows: Vec<u16>,
    free_number_columns: Vec<u16>,
    free_number_boxes: Vec<u16>,
    cells: Vec<Cell>,
}

impl Board {
    /// The cells, flattened row-major: index r * 9 + c.
    pub closed spec fn grid(self) -> Seq<Cell> {
        self.cells@
    }

    /// The digits stored in the cells, flattened row-major.
    pub closed spec fn digits(self) -> Seq<u8> {
        self.cells@.map_values(|cell: Cell| cell_digit(cell))
    }

    pub closed spec fn fixed_at(self, r: int, c: int) -> bool {
        cell_is_fixed(self.grid()[r * 9 + c])
    }

    /// The candidate masks agree with the cells: a digit is in a unit's
    /// mask exactly when no cell of that unit holds it.
    spec fn masks_ok(self) -> bool {
        &&& self.free_number_rows@.len() == 9
        &&& self.free_number_columns@.len() == 9
        &&& self.free_number_boxes@.len() == 9
        &&& forall|u: int| 0 <= u < 9 ==> #[trigger] self.free_number_rows@[u] < 512
        &&& forall|u: int| 0 <= u < 9 ==> #[trigger] self.free_number_columns@[u] < 512
        &&& forall|u: int| 0 <= u < 9 ==> #[trigger] self.free_number_boxes@[u] < 512
        &&& forall|u: int, d: u8|
            0 <= u < 9 && 1 <= d <= 9 ==> (#[trigger] mask_has(self.free_number_rows@[u], d)
                <==> !row_has(self.digits(), u, d))
        &&& forall|u: int, d: u8|
            0 <= u < 9 && 1 <= d <= 9 ==> (#[trigger] mask_has(self.free_number_columns@[u], d)
                <==> !col_has(self.digits(), u, d))
        &&& forall|u: int, d: u8|
            0 <= u < 9 && 1 <= d <= 9 ==> (#[trigger] mask_has(self.free_number_boxes@[u], d)
                <==> !box_has(self.digits(), u, d))
    }

    /// The board invariant: well-formed cells, no duplicate digit in any
    /// unit, and candidate masks consistent with the cells.
    pub closed spec fn wf(self) -> bool {
        &&& self.cells@.len() == 81
        &&& forall|i: int| 0 <= i < 81 ==> cell_ok(#[trigger] self.cells@[i])
        &&& all_unique(self.digits())
        &&& self.masks_ok()
    }

    /// What the board invariant guarantees about the stored digits and
    /// the fixed flags, for use outside this module.
    pub proof fn lemma_wf_grid(self)
        requires
            self.wf(),
        ensures
            self.digits().len() == 81,
            all_unique(self.digits()),
            forall|i: int| 0 <= i < 81 ==> #[trigger] self.digits()[i] <= 9,
            forall|r: int, c: int|
                0 <= r < 9 && 0 <= c < 9 && #[trigger] self.fixed_at(r, c) ==> digit_at(
                    self.digits(),
                    r,
                    c,
                ) >= 1,
    {
        assert forall|r: int, c: int|
            0 <= r < 9 && 0 <= c < 9 && #[trigger] self.fixed_at(r, c) implies digit_at(
            self.digits(),
            r,
            c,
        ) >= 1 by {
            assert(0 <= r * 9 + c < 81);
            assert(cell_ok(self.cells@[r * 9 + c]));
        }
    }

    pub fn new() -> (b: Board)
        ensures
            b.wf(),
            b.digits().len() == 81,
            forall|i: int| 0 <= i < 81 ==> b.digits()[i] == 0,
            forall|r: int, c: int| 0 <= r < 9 && 0 <= c < 9 ==> !b.fixed_at(r, c),
    {
        let mut cells: Vec<Cell> = Vec::new();
        let mut i: usize = 0;
        while i < 81
            invariant
                i <= 81,
                cells@.len() == i as int,
                forall|j: int| 0 <= j < i ==> cells@[j] == Cell::Free(Value(0)),
            decreases 81 - i,
        {
            cells.push(Cell::Free(Value(0)));
            i = i + 1;
        }
        let mut free_number_rows: Vec<u16> = Vec::new();
        let mut free_number_columns: Vec<u16> = Vec::new();
        let mut free_number_boxes: Vec<u16> = Vec::new();
        let mut u: usize = 0;
        while u < 9
            invariant
                u <= 9,
                free_number_rows@.len() == u as int,
                free_number_columns@.len() == u as int,
                free_number_boxes@.len() == u as int,
                forall|j: int| 0 <= j < u ==> free_number_rows@[j] == 511u16,
                forall|j: int| 0 <= j < u ==> free_number_columns@[j] == 511u16,
                forall|j: int| 0 <= j < u ==> free_number_boxes@[j] == 511u16,
            decreases 9 - u,
        {
            free_number_rows.push(511);
            free_number_columns.push(511);
            free_number_boxes.push(511);
            u = u + 1;
        }
        let b = Board { free_number_rows, free_number_columns, free_number_boxes, cells };
        proof {
            lemma_mask_full();
            assert forall|i: int| 0 <= i < 81 implies b.digits()[i] == 0 by {
                assert(b.cells@[i] == Cell::Free(Value(0)));
            }
            assert forall|u2: int, d: u8| 0 <= u2 < 9 && 1 <= d <= 9 implies !row_has(
                b.digits(),
                u2,
                d,
            ) by {
                assert forall|c: int| 0 <= c < 9 implies digit_at(b.digits(), u2, c) == 0 by {
                    assert(0 <= u2 * 9 + c < 81);
                }
            }
            assert forall|u2: int, d: u8| 0 <= u2 < 9 && 1 <= d <= 9 implies !col_has(
                b.digits(),
                u2,
                d,
            ) by {
                assert forall|r: int| 0 <= r < 9 implies digit_at(b.digits(), r, u2) == 0 by {
                    assert(0 <= r * 9 + u2 < 81);
                }
            }
            assert forall|u2: int, d: u8| 0 <= u2 < 9 && 1 <= d <= 9 implies !box_has(
                b.digits(),
                u2,
                d,
            ) by {
                assert forall|r: int, c: int| 0 <= r < 9 && 0 <= c < 9 implies digit_at(
                    b.digits(),
                    r,
                    c,
                ) == 0 by {
                    assert(0 <= r * 9 + c < 81);
                }
            }
        }
        b
    }

    pub fn get_value(&self, row: usize, col: usize) -> (r: Option<u8>)
        requires
            self.wf(),
            row < 9,
            col < 9,
        ensures
            digit_at(self.digits(), row as int, col as int) == 0 <==> r is None,
            r is Some ==> r == Some(digit_at(self.digits(), row as int, col as int)),
    {
        let val = match self.cells[row * 9 + col] {
            Cell::Fixed(v) => v.0,
            Cell::Free(v) => v.0,
        };
        if val == 0 {
            None
        } else {
            Some(val)
        }
    }

    pub fn is_fixed_value(&self, row: usize, col: usize) -> (r: bool)
        requires
            self.wf(),
            row < 9,
            col < 9,
        ensures
            r == self.fixed_at(row as int, col as int),
    {
        match self.cells[row * 9 + col] {
            Cell::Fixed(_) => true,
            Cell::Free(_) => false,
        }
    }

    pub fn compute_box_index(row: usize, col: usize) -> (b: usize)
        requires
            row < 9,
            col < 9,
        ensures
            b == box_index_of(row as int, col as int),
            b < 9,
    {
        (row / BOARD_BOX_SIZE) * BOARD_BOX_SIZE + col / BOARD_BOX_SIZE
    }

    fn can_set_value(&self, row: usize, col: usize, val: u8) -> (r: bool)
        requires
            self.wf(),
            row < 9,
            col < 9,
            val <= 9,
        ensures
            r == (val == 0 || can_place(self.digits(), row as int, col as int, val)),
    {
        let flag = digit_mask(val);
        let bi = Board::compute_box_index(row, col);
        let ok = (self.free_number_rows[row] & flag) == flag && (self.free_number_columns[col]
            & flag) == flag && (self.free_number_boxes[bi] & flag) == flag;
        proof {
            if val != 0 {
                lemma_mask_contains(self.free_number_rows@[row as int], val);
                lemma_mask_contains(self.free_number_columns@[col as int], val);
                lemma_mask_contains(self.free_number_boxes@[bi as int], val);
            } else {
                lemma_mask_and_zero(self.free_number_rows@[row as int]);
                lemma_mask_and_zero(self.free_number_columns@[col as int]);
                lemma_mask_and_zero(self.free_number_boxes@[bi as int]);
            }
        }
        ok
    }

    /// Writes `val` into a free cell if the placement is legal; `val` 0
    /// clears the cell. On failure nothing changes.
    pub fn set_value(&mut self, row: usize, col: usize, val: u8) -> (r: Result<(), BoardError>)
        requires
            old(self).wf(),
            row < 9,
            col < 9,
            val <= 9,
        ensures
            final(self).wf(),
            r == Err::<(), BoardError>(BoardError::FixedCellError) <==> old(self).fixed_at(
                row as int,
                col as int,
            ),
            r == Err::<(), BoardError>(BoardError::ForbiddenValueError) <==> (!old(self).fixed_at(
                row as int,
                col as int,
            ) && val != 0 && !can_place(old(self).digits(), row as int, col as int, val)),
            r is Err ==> *final(self) == *old(self),
            r is Ok <==> (!old(self).fixed_at(row as int, col as int) && (val == 0 || can_place(
                old(self).digits(),
                row as int,
                col as int,
                val,
            ))),
            r is Ok ==> final(self).digits() == old(self).digits().update(
                (row as int) * 9 + col as int,
                val,
            ),
            r is Ok ==> forall|r2: int, c2: int|
                0 <= r2 < 9 && 0 <= c2 < 9 ==> #[trigger] final(self).fixed_at(r2, c2) == old(
                    self,
                ).fixed_at(r2, c2),
    {
        if self.is_fixed_value(row, col) {
            return Err(BoardError::FixedCellError);
        }
        if !self.can_set_value(row, col, val) {
            return Err(BoardError::ForbiddenValueError);
        }
        let cleared = self.clear_value(row, col);
        proof {
            assert(cleared is Ok);
        }
        let ghost b = *self;
        let idx = row * 9 + col;
        let new_cell = Cell::new(val, false);
        self.cells[idx] = new_cell;
        proof {
            lemma_digits_update(b.cells@, idx as int, new_cell);
            assert(self.digits() == b.digits().update(idx as int, val));
        }
        if val != 0 {
            let flag = digit_mask(val);
            let bi = Board::compute_box_index(row, col);
            self.free_number_rows[row] = self.free_number_rows[row] & !flag;
            self.free_number_columns[col] = self.free_number_columns[col] & !flag;
            self.free_number_boxes[bi] = self.free_number_boxes[bi] & !flag;
            proof {
                let r = row as int;
                let c = col as int;
                let a = *old(self);
                let bx = box_index_of(r, c);
                let db = b.digits();
                let dc = self.digits();
                assert(db == a.digits().update(r * 9 + c, 0u8));
                assert(digit_at(db, r, c) == 0);
                if digit_at(a.digits(), r, c) != 0 {
                    lemma_clear_preserves(a.digits(), r, c);
                } else {
                    assert(db =~= a.digits());
                }
                assert(can_place(db, r, c, val));
                lemma_place_preserves(db, r, c, val);
                lemma_mask_clear(b.free_number_rows@[r], val);
                lemma_mask_clear(b.free_number_columns@[c], val);
                lemma_mask_clear(b.free_number_boxes@[bx], val);
                assert(dc == db.update(r * 9 + c, val));
                assert(a.digits().update(r * 9 + c, 0u8).update(r * 9 + c, val) =~= a.digits()
                    .update(r * 9 + c, val));
                assert forall|r2: int, c2: int|
                    0 <= r2 < 9 && 0 <= c2 < 9 implies #[trigger] self.fixed_at(r2, c2)
                    == a.fixed_at(r2, c2) by {
                    assert(b.fixed_at(r2, c2) == a.fixed_at(r2, c2));
                    if r2 * 9 + c2 == idx as int {
                        lemma_index_inj(r2, c2, r, c);
                    } else {
                        assert(self.cells@[r2 * 9 + c2] == b.cells@[r2 * 9 + c2]);
                    }
                }
                assert forall|i: int| 0 <= i < 81 implies cell_ok(#[trigger] self.cells@[i]) by {
                    if i != idx as int {
                        assert(cell_ok(b.cells@[i]));
                    }
                }
                assert forall|u: int, d: u8| 0 <= u < 9 && 1 <= d <= 9 implies (#[trigger] mask_has(
                    self.free_number_rows@[u],
                    d,
                ) <==> !row_has(dc, u, d)) by {
                    if u == r {
                        assert(self.free_number_rows@[u] == b.free_number_rows@[r] & !mask_bit(
                            val,
                        ));
                        assert(mask_has(b.free_number_rows@[r], d) <==> !row_has(db, r, d));
                        assert(row_has(dc, r, d) <==> (d == val || row_has(db, r, d)));
                    } else {
                        assert(self.free_number_rows@[u] == b.free_number_rows@[u]);
                        assert(mask_has(b.free_number_rows@[u], d) <==> !row_has(db, u, d));
                        assert(row_has(dc, u, d) <==> row_has(db, u, d));
                    }
                }
                assert forall|u: int, d: u8| 0 <= u < 9 && 1 <= d <= 9 implies (#[trigger] mask_has(
                    self.free_number_columns@[u],
                    d,
                ) <==> !col_has(dc, u, d)) by {
                    if u == c {
                        assert(self.free_number_columns@[u] == b.free_number_columns@[c]
                            & !mask_bit(val));
                        assert(mask_has(b.free_number_columns@[c], d) <==> !col_has(db, c, d));
                        assert(col_has(dc, c, d) <==> (d == val || col_has(db, c, d)));
                    } else {
                        assert(self.free_number_columns@[u] == b.free_number_columns@[u]);
                        assert(mask_has(b.free_number_columns@[u], d) <==> !col_has(db, u, d));
                        assert(col_has(dc, u, d) <==> col_has(db, u, d));
                    }
                }
                assert forall|u: int, d: u8| 0 <= u < 9 && 1 <= d <= 9 implies (#[trigger] mask_has(
                    self.free_number_boxes@[u],
                    d,
                ) <==> !box_has(dc, u, d)) by {
                    if u == bx {
                        assert(self.free_number_boxes@[u] == b.free_number_boxes@[bx] & !mask_bit(
                            val,
                        ));
                        assert(mask_has(b.free_number_boxes@[bx], d) <==> !box_has(db, bx, d));
                        assert(box_has(dc, bx, d) <==> (d == val || box_has(db, bx, d)));
                    } else {
                        assert(self.free_number_boxes@[u] == b.free_number_boxes@[u]);
                        assert(mask_has(b.free_number_boxes@[u], d) <==> !box_has(db, u, d));
                        assert(box_has(dc, u, d) <==> box_has(db, u, d));
                    }
                }
            }
        } else {
            proof {
                let r = row as int;
                let c = col as int;
                let a = *old(self);
                assert(self.digits() =~= b.digits());
                assert forall|r2: int, c2: int|
                    0 <= r2 < 9 && 0 <= c2 < 9 implies #[trigger] self.fixed_at(r2, c2)
                    == a.fixed_at(r2, c2) by {
                    assert(b.fixed_at(r2, c2) == a.fixed_at(r2, c2));
                    if r2 * 9 + c2 == idx as int {
                        lemma_index_inj(r2, c2, r, c);
                    } else {
                        assert(self.cells@[r2 * 9 + c2] == b.cells@[r2 * 9 + c2]);
                    }
                }
                assert forall|i: int| 0 <= i < 81 implies cell_ok(#[trigger] self.cells@[i]) by {
                    if i != idx as int {
                        assert(cell_ok(b.cells@[i]));
                    }
                }
            }
        }
        Ok(())
    }

    /// Empties a free cell, returning its digit to the candidate masks of
    /// the cell's row, column and box. Succeeds on an already empty cell.
    pub fn clear_value(&mut self, row: usize, col: usize) -> (r: Result<(), BoardError>)
        requires
            old(self).wf(),
            row < 9,
            col < 9,
        ensures
            final(self).wf(),
            r == Err::<(), BoardError>(BoardError::FixedCellError) <==> old(self).fixed_at(
                row as int,
                col as int,
            ),
            r is Err ==> *final(self) == *old(self),
            r is Ok <==> !old(self).fixed_at(row as int, col as int),
            r is Ok ==> final(self).digits() == old(self).digits().update(
                (row as int) * 9 + col as int,
                0u8,
            ),
            r is Ok ==> forall|r2: int, c2: int|
                0 <= r2 < 9 && 0 <= c2 < 9 ==> #[trigger] final(self).fixed_at(r2, c2) == old(
                    self,
                ).fixed_at(r2, c2),
    {
        if self.is_fixed_value(row, col) {
            return Err(BoardError::FixedCellError);
        }
        let idx = row * 9 + col;
        match self.get_value(row, col) {
            Some(val) => {
                proof {
                    assert(cell_ok(self.cells@[idx as int]));
                    lemma_clear_preserves(self.digits(), row as int, col as int);
                }
                let flag = digit_mask(val);
                let bi = Board::compute_box_index(row, col);
                self.free_number_rows[row] = self.free_number_rows[row] | flag;
                self.free_number_columns[col] = self.free_number_columns[col] | flag;
                self.free_number_boxes[bi] = self.free_number_boxes[bi] | flag;
                let new_cell = Cell::new(0, false);
                self.cells[idx] = new_cell;
                proof {
                    let r = row as int;
                    let c = col as int;
                    let a = *old(self);
                    let bx = box_index_of(r, c);
                    let da = a.digits();
                    lemma_digits_update(a.cells@, idx as int, new_cell);
                    let dc = self.digits();
                    assert(dc == da.update(r * 9 + c, 0u8));
                    lemma_mask_set(a.free_number_rows@[r], val);
                    lemma_mask_set(a.free_number_columns@[c], val);
                    lemma_mask_set(a.free_number_boxes@[bx], val);
                    assert forall|r2: int, c2: int|
                        0 <= r2 < 9 && 0 <= c2 < 9 implies #[trigger] self.fixed_at(r2, c2)
                        == a.fixed_at(r2, c2) by {
                        if r2 * 9 + c2 == idx as int {
                            lemma_index_inj(r2, c2, r, c);
                        } else {
                            assert(self.cells@[r2 * 9 + c2] == a.cells@[r2 * 9 + c2]);
                        }
                    }
                    assert forall|i: int| 0 <= i < 81 implies cell_ok(
                        #[trigger] self.cells@[i],
                    ) by {
                        if i != idx as int {
                            assert(cell_ok(a.cells@[i]));
                        }
                    }
                    assert(val == digit_at(da, r, c));
                    assert forall|u: int, d: u8|
                        0 <= u < 9 && 1 <= d <= 9 implies (#[trigger] mask_has(
                        self.free_number_rows@[u],
                        d,
                    ) <==> !row_has(dc, u, d)) by {
                        if u == r {
                            assert(self.free_number_rows@[u] == a.free_number_rows@[r] | mask_bit(
                                val,
                            ));
                            assert(mask_has(a.free_number_rows@[r], d) <==> !row_has(da, r, d));
                            assert(row_has(dc, r, d) <==> (d != val && row_has(da, r, d)));
                        } else {
                            assert(self.free_number_rows@[u] == a.free_number_rows@[u]);
                            assert(mask_has(a.free_number_rows@[u], d) <==> !row_has(da, u, d));
                            assert(row_has(dc, u, d) <==> row_has(da, u, d));
                        }
                    }
                    assert forall|u: int, d: u8|
                        0 <= u < 9 && 1 <= d <= 9 implies (#[trigger] mask_has(
                        self.free_number_columns@[u],
                        d,
                    ) <==> !col_has(dc, u, d)) by {
                        if u == c {
                            assert(self.free_number_columns@[u] == a.free_number_columns@[c]
                                | mask_bit(val));
                            assert(mask_has(a.free_number_columns@[c], d) <==> !col_has(da, c, d));
                            assert(col_has(dc, c, d) <==> (d != val && col_has(da, c, d)));
                        } else {
                            assert(self.free_number_columns@[u] == a.free_number_columns@[u]);
                            assert(mask_has(a.free_number_columns@[u], d) <==> !col_has(da, u, d));
                            assert(col_has(dc, u, d) <==> col_has(da, u, d));
                        }
                    }
                    assert forall|u: int, d: u8|
                        0 <= u < 9 && 1 <= d <= 9 implies (#[trigger] mask_has(
                        self.free_number_boxes@[u],
                        d,
                    ) <==> !box_has(dc, u, d)) by {
                        if u == bx {
                            assert(self.free_number_boxes@[u] == a.free_number_boxes@[bx]
                                | mask_bit(val));
                            assert(mask_has(a.free_number_boxes@[bx], d) <==> !box_has(da, bx, d));
                            assert(box_has(dc, bx, d) <==> (d != val && box_has(da, bx, d)));
                        } else {
                            assert(self.free_number_boxes@[u] == a.free_number_boxes@[u]);
                            assert(mask_has(a.free_number_boxes@[u], d) <==> !box_has(da, u, d));
                            assert(box_has(dc, u, d) <==> box_has(da, u, d));
                        }
                    }
                }
            },
            None => {
                proof {
                    let r = row as int;
                    let c = col as int;
                    assert(self.digits() =~= self.digits().update(r * 9 + c, 0u8));
                    assert forall|r2: int, c2: int|
                        0 <= r2 < 9 && 0 <= c2 < 9 implies #[trigger] self.fixed_at(r2, c2) == old(
                        self,
                    ).fixed_at(r2, c2) by {}
                }
            },
        }
        Ok(())
    }

    /// The digits that could legally be written at (row, col) right now,
    /// in ascending order. The cell's own digit, if any, is not offered.
    pub fn get_available_values(&self, row: usize, col: usize) -> (r: Vec<u8>)
        requires
            self.wf(),
            row < 9,
            col < 9,
        ensures
            forall|k1: int, k2: int| 0 <= k1 < k2 < r@.len() ==> r@[k1] < r@[k2],
            forall|d: u8|
                #[trigger] r@.contains(d) <==> (1 <= d <= 9 && can_place(
                    self.digits(),
                    row as int,
                    col as int,
                    d,
                )),
    {
        let bi = Board::compute_box_index(row, col);
        let free_values = self.free_number_rows[row] & self.free_number_columns[col]
            & self.free_number_boxes[bi];
        proof {
            lemma_mask_and(self.free_number_rows@[row as int], self.free_number_columns@[col as int]);
            lemma_mask_and(
                self.free_number_rows@[row as int] & self.free_number_columns@[col as int],
                self.free_number_boxes@[bi as int],
            );
        }
        let mut r: Vec<u8> = Vec::new();
        let mut d: u8 = 1;
        while d <= 9
            invariant
                1 <= d <= 10,
                forall|k1: int, k2: int| 0 <= k1 < k2 < r@.len() ==> r@[k1] < r@[k2],
                forall|k: int| 0 <= k < r@.len() ==> 1 <= #[trigger] r@[k] < d,
                forall|e: u8|
                    1 <= e < d ==> (#[trigger] r@.contains(e) <==> mask_has(free_values, e)),
            decreases 10 - d,
        {
            if mask_test(free_values, d) {
                let ghost r0 = r@;
                r.push(d);
                proof {
                    assert forall|e: u8| 1 <= e < d + 1 implies (#[trigger] r@.contains(e)
                        <==> mask_has(free_values, e)) by {
                        if r@.contains(e) {
                            let k = choose|k: int| 0 <= k < r@.len() && r@[k] == e;
                            if k < r0.len() {
                                assert(r0.contains(e));
                            }
                        }
                        if e < d && mask_has(free_values, e) {
                            assert(r0.contains(e));
                            let k = choose|k: int| 0 <= k < r0.len() && r0[k] == e;
                            assert(r@[k] == e);
                        }
                        if e == d {
                            assert(r@[r@.len() - 1] == e);
                        }
                    }
                }
            } else {
                proof {
                    assert forall|e: u8| 1 <= e < d + 1 implies (#[trigger] r@.contains(e)
                        <==> mask_has(free_values, e)) by {}
                }
            }
            d = d + 1;
        }
        proof {
            let ri = row as int;
            let ci = col as int;
            assert forall|e: u8| 1 <= e <= 9 implies (mask_has(free_values, e) <==> can_place(
                self.digits(),
                ri,
                ci,
                e,
            )) by {
                assert(mask_has(free_values, e) <==> (mask_has(self.free_number_rows@[ri], e)
                    && mask_has(self.free_number_columns@[ci], e) && mask_has(
                    self.free_number_boxes@[bi as int],
                    e,
                )));
                assert(mask_has(self.free_number_rows@[ri], e) <==> !row_has(self.digits(), ri, e));
                assert(mask_has(self.free_number_columns@[ci], e) <==> !col_has(
                    self.digits(),
                    ci,
                    e,
                ));
                assert(mask_has(self.free_number_boxes@[bi as int], e) <==> !box_has(
                    self.digits(),
                    box_index_of(ri, ci),
                    e,
                ));
            }
            assert forall|e: u8| #[trigger] r@.contains(e) implies 1 <= e <= 9 by {
                let k = choose|k: int| 0 <= k < r@.len() && r@[k] == e;
                assert(1 <= r@[k] < 10);
            }
        }
        r
    }

    /// The board is solved exactly when no digit is missing from any row.
    pub fn is_solved(&self) -> (r: bool)
        requires
            self.wf(),
        ensures
            r == solved_grid(self.digits()),
    {
        let mut u: usize = 0;
        while u < 9
            invariant
                self.wf(),
                u <= 9,
                forall|j: int| 0 <= j < u ==> self.free_number_rows@[j] == 0,
            decreases 9 - u,
        {
            if self.free_number_rows[u] != 0 {
                proof {
                    lemma_mask_zero(self.free_number_rows@[u as int]);
                    let e = choose|e: u8| 1 <= e <= 9 && mask_has(self.free_number_rows@[u as int], e);
                    assert(!row_has(self.digits(), u as int, e));
                }
                return false;
            }
            u = u + 1;
        }
        proof {
            assert forall|r2: int, e: u8| 0 <= r2 < 9 && 1 <= e <= 9 implies row_has(
                self.digits(),
                r2,
                e,
            ) by {
                lemma_mask_zero(self.free_number_rows@[r2]);
                assert(!mask_has(self.free_number_rows@[r2], e));
            }
        }
        true
    }

    /// Locks every cell that holds a digit. Digits and masks do not change.
    pub fn freeze(&mut self)
        requires
            old(self).wf(),
        ensures
            final(self).wf(),
            final(self).digits() == old(self).digits(),
            forall|r2: int, c2: int|
                0 <= r2 < 9 && 0 <= c2 < 9 ==> (#[trigger] final(self).fixed_at(r2, c2) <==> digit_at(
                    old(self).digits(),
                    r2,
                    c2,
                ) != 0),
    {
        let mut i: usize = 0;
        while i < 81
            invariant
                self.cells@.len() == 81,
                i <= 81,
                self.free_number_rows@ == old(self).free_number_rows@,
                self.free_number_columns@ == old(self).free_number_columns@,
                self.free_number_boxes@ == old(self).free_number_boxes@,
                forall|j: int| 0 <= j < 81 ==> cell_ok(#[trigger] self.cells@[j]),
                forall|j: int|
                    0 <= j < i ==> cell_digit(#[trigger] self.cells@[j]) == cell_digit(
                        old(self).cells@[j],
                    ) && (cell_is_fixed(self.cells@[j]) <==> cell_digit(old(self).cells@[j]) != 0),
                forall|j: int| i <= j < 81 ==> #[trigger] self.cells@[j] == old(self).cells@[j],
            decreases 81 - i,
        {
            let cell = self.cells[i];
            let val = match cell {
                Cell::Fixed(v) => v.0,
                Cell::Free(v) => v.0,
            };
            if val != 0 {
                proof {
                    assert(cell_ok(self.cells@[i as int]));
                }
                self.cells[i] = Cell::lock(cell);
            }
            i = i + 1;
        }
        proof {
            assert(self.digits() =~= old(self).digits());
            assert forall|r2: int, c2: int| 0 <= r2 < 9 && 0 <= c2 < 9 implies (
            #[trigger] self.fixed_at(r2, c2) <==> digit_at(old(self).digits(), r2, c2) != 0) by {
                assert(0 <= r2 * 9 + c2 < 81);
            }
        }
    }

    /// Empties every free cell; locked cells and their digits stay. The
    /// candidate masks afterwards reflect the locked cells alone.
    pub fn reset(&mut self)
        requires
            old(self).wf(),
        ensures
            final(self).wf(),
            forall|r2: int, c2: int|
                0 <= r2 < 9 && 0 <= c2 < 9 ==> #[trigger] final(self).fixed_at(r2, c2) == old(
                    self,
                ).fixed_at(r2, c2),
            forall|r2: int, c2: int|
                0 <= r2 < 9 && 0 <= c2 < 9 && old(self).fixed_at(r2, c2) ==> digit_at(
                    final(self).digits(),
                    r2,
                    c2,
                ) == digit_at(old(self).digits(), r2, c2),
            forall|r2: int, c2: int|
                0 <= r2 < 9 && 0 <= c2 < 9 && !old(self).fixed_at(r2, c2) ==> digit_at(
                    final(self).digits(),
                    r2,
                    c2,
                ) == 0,
    {
        let mut i: usize = 0;
        while i < 81
            invariant
                self.wf(),
                old(self).wf(),
                i <= 81,
                forall|r2: int, c2: int|
                    0 <= r2 < 9 && 0 <= c2 < 9 ==> #[trigger] self.fixed_at(r2, c2) == old(
                        self,
                    ).fixed_at(r2, c2),
                forall|j: int| i <= j < 81 ==> #[trigger] self.digits()[j] == old(self).digits()[j],
                forall|j: int|
                    0 <= j < i ==> #[trigger] self.digits()[j] == (if cell_is_fixed(
                        old(self).grid()[j],
                    ) {
                        old(self).digits()[j]
                    } else {
                        0u8
                    }),
            decreases 81 - i,
        {
            let row = i / 9;
            let col = i % 9;
            proof {
                assert(row < 9 && col < 9 && row * 9 + col == i as int);
                assert(old(self).digits()[i as int] == cell_digit(old(self).cells@[i as int]));
            }
            let ghost pre = *self;
            if !self.is_fixed_value(row, col) {
                let cleared = self.clear_value(row, col);
                proof {
                    assert(cleared is Ok);
                    assert(self.digits() == pre.digits().update(i as int, 0u8));
                }
            }
            proof {
                assert forall|j: int| 0 <= j < i + 1 implies #[trigger] self.digits()[j] == (
                if cell_is_fixed(old(self).grid()[j]) {
                    old(self).digits()[j]
                } else {
                    0u8
                }) by {
                    if j == i as int {
                        assert(pre.fixed_at(row as int, col as int) == old(self).fixed_at(
                            row as int,
                            col as int,
                        ));
                        assert(old(self).fixed_at(row as int, col as int) == cell_is_fixed(
                            old(self).grid()[i as int],
                        ));
                        if cell_is_fixed(old(self).grid()[j]) {
                            assert(self.digits()[j] == pre.digits()[j]);
                        }
                    } else {
                        assert(self.digits()[j] == pre.digits()[j]);
                    }
                }
            }
            i = i + 1;
        }
        proof {
            assert forall|r2: int, c2: int| 0 <= r2 < 9 && 0 <= c2 < 9 implies {
                &&& (old(self).fixed_at(r2, c2) ==> digit_at(self.digits(), r2, c2) == digit_at(
                    old(self).digits(),
                    r2,
                    c2,
                ))
                &&& (!old(self).fixed_at(r2, c2) ==> digit_at(self.digits(), r2, c2) == 0)
            } by {
                assert(0 <= r2 * 9 + c2 < 81);
                assert(self.digits()[r2 * 9 + c2] == (if cell_is_fixed(
                    old(self).grid()[r2 * 9 + c2],
                ) {
                    old(self).digits()[r2 * 9 + c2]
                } else {
                    0u8
                }));
            }
        }
    }
}

impl Clone for Board {
    /// An exact copy: same cells, same candidate masks.
    fn clone(&self) -> (r: Board)
        ensures
            r.grid() == self.grid(),
            r.digits() == self.digits(),
            forall|r2: int, c2: int| #[trigger] r.fixed_at(r2, c2) == self.fixed_at(r2, c2),
            self.wf() ==> r.wf(),
    {
        let r = Board {
            free_number_rows: copy_vec(&self.free_number_rows),
            free_number_columns: copy_vec(&self.free_number_columns),
            free_number_boxes: copy_vec(&self.free_number_boxes),
            cells: copy_vec(&self.cells),
        };
        proof {
            assert(r.digits() =~= self.digits());
        }
        r
    }
}

fn copy_vec<T: Copy>(v: &Vec<T>) -> (r: Vec<T>)
    ensures
        r@ == v@,
{
    let mut r: Vec<T> = Vec::new();
    let mut i: usize = 0;
    while i < v.len()
        invariant
            i <= v@.len(),
            r@ == v@.subrange(0, i as int),
        decreases v@.len() - i,
    {
        r.push(v[i]);
        proof {
            assert(r@ =~= v@.subrange(0, i + 1 as int));
        }
        i = i + 1;
    }
    proof {
        assert(r@ =~= v@);
    }
    r
}

/// Setting a digit on an empty cell and then clearing that cell restores
/// the digit grid exactly: the cell is empty again and every position
/// offers the same available digits as before, so every query about the
/// board reads the same as before the pair of calls.
pub proof fn lemma_set_clear_roundtrip(s: Seq<u8>, r: int, c: int, d: u8)
    requires
        s.len() == 81,
        0 <= r < 9,
        0 <= c < 9,
        digit_at(s, r, c) == 0,
    ensures
        s.update(r * 9 + c, d).update(r * 9 + c, 0u8) == s,
        digit_at(s.update(r * 9 + c, d).update(r * 9 + c, 0u8), r, c) == 0,
        forall|r2: int, c2: int, d2: u8|
            0 <= r2 < 9 && 0 <= c2 < 9 ==> #[trigger] can_place(
                s.update(r * 9 + c, d).update(r * 9 + c, 0u8),
                r2,
                c2,
                d2,
            ) == can_place(s, r2, c2, d2),
{
    assert(s.update(r * 9 + c, d).update(r * 9 + c, 0u8) =~= s);
}

} // verus!
