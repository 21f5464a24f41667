//! The 9x9 grid: an 81-cell board of optional digits 1..=9, with the
//! row, column and box uniqueness constraints.

use vstd::prelude::*;

verus! {

/// One cell is either empty or holds a digit in 1..=9.
pub open spec fn cell_ok(c: Option<u8>) -> bool {
    c matches Some(d) ==> 1 <= d <= 9
}

/// The cell holds exactly the digit `d`.
pub open spec fn has_digit(c: Option<u8>, d: int) -> bool {
    c matches Some(v) && v == d
}

/// Every cell of the sequence is empty or holds a digit in 1..=9.
pub open spec fn cells_ok(s: Seq<Option<u8>>) -> bool {
    forall|i: int| 0 <= i < s.len() ==> cell_ok(#[trigger] s[i])
}

/// A well-formed board: exactly 81 cells, each empty or a digit in 1..=9.
pub open spec fn board_wf(s: Seq<Option<u8>>) -> bool {
    s.len() == 81 && cells_ok(s)
}

/// Row-major position of the cell in row `y`, column `x`.
pub open spec fn cell_index(y: int, x: int) -> int {
    y * 9 + x
}

/// Row-major position of the `k`-th cell (0..9) of box `b` (0..9).
/// Box `b` spans rows `(b / 3) * 3 ..` and columns `(b % 3) * 3 ..`.
pub open spec fn box_index(b: int, k: int) -> int {
    cell_index((b / 3) * 3 + k / 3, (b % 3) * 3 + k % 3)
}

/// No digit appears twice among the filled cells of row `y`.
pub open spec fn row_ok(s: Seq<Option<u8>>, y: int) -> bool {
    forall|x1: int, x2: int|
        #![trigger s[cell_index(y, x1)], s[cell_index(y, x2)]]
        0 <= x1 < 9 && 0 <= x2 < 9 && x1 != x2 && s[cell_index(y, x1)] is Some
            ==> s[cell_index(y, x1)] != s[cell_index(y, x2)]
}

/// No digit appears twice among the filled cells of any row.
pub open spec fn rows_ok(s: Seq<Option<u8>>) -> bool {
    forall|y: int| 0 <= y < 9 ==> #[trigger] row_ok(s, y)
}

/// No digit appears twice among the filled cells of column `x`.
pub open spec fn col_ok(s: Seq<Option<u8>>, x: int) -> bool {
    forall|y1: int, y2: int|
        #![trigger s[cell_index(y1, x)], s[cell_index(y2, x)]]
        0 <= y1 < 9 && 0 <= y2 < 9 && y1 != y2 && s[cell_index(y1, x)] is Some
            ==> s[cell_index(y1, x)] != s[cell_index(y2, x)]
}

/// No digit appears twice among the filled cells of any column.
pub open spec fn cols_ok(s: Seq<Option<u8>>) -> bool {
    forall|x: int| 0 <= x < 9 ==> #[trigger] col_ok(s, x)
}

/// No digit appears twice among the filled cells of box `b`.
pub open spec fn box_ok(s: Seq<Option<u8>>, b: int) -> bool {
    forall|k1: int, k2: int|
        #![trigger s[box_index(b, k1)], s[box_index(b, k2)]]
        0 <= k1 < 9 && 0 <= k2 < 9 && k1 != k2 && s[box_index(b, k1)] is Some
            ==> s[box_index(b, k1)] != s[box_index(b, k2)]
}

/// No digit appears twice among the filled cells of any box.
pub open spec fn boxes_ok(s: Seq<Option<u8>>) -> bool {
    forall|b: int| 0 <= b < 9 ==> #[trigger] box_ok(s, b)
}

/// A legal (possibly partial) assignment: all three constraint families hold.
pub open spec fn consistent(s: Seq<Option<u8>>) -> bool {
    rows_ok(s) && cols_ok(s) && boxes_ok(s)
}

/// Every cell holds a digit.
pub open spec fn full(s: Seq<Option<u8>>) -> bool {
    forall|i: int| 0 <= i < s.len() ==> #[trigger] s[i] is Some
}

/// A solved board: full and consistent.
pub open spec fn solved(s: Seq<Option<u8>>) -> bool {
    full(s) && consistent(s)
}

/// A board is solved exactly when it is full and satisfies all of the
/// row, column and box constraints.
pub proof fn lemma_solved_iff_full_and_consistent(s: Seq<Option<u8>>)
    ensures
        solved(s) <==> full(s) && consistent(s),
{
}

/// The lowest position at or after `i` that holds an empty cell, or the
/// length of the sequence if there is none.
pub open spec fn first_empty_from(s: Seq<Option<u8>>, i: int) -> int
    decreases s.len() - i
        when 0 <= i <= s.len()
{
    if i >= s.len() {
        s.len() as int
    } else if s[i] is None {
        i
    } else {
        first_empty_from(s, i + 1)
    }
}

/// The lowest position of an empty cell, or the length if the board is full.
pub open spec fn first_empty(s: Seq<Option<u8>>) -> int {
    first_empty_from(s, 0)
}

/// `first_empty_from(s, i)` is the first empty position in `[i, len)`:
/// everything before it is filled, and it is empty unless it is the length.
pub proof fn lemma_first_empty_from(s: Seq<Option<u8>>, i: int)
    requires
        0 <= i <= s.len(),
    ensures
        i <= first_empty_from(s, i) <= s.len(),
        first_empty_from(s, i) < s.len() ==> s[first_empty_from(s, i)] is None,
        forall|j: int| i <= j < first_empty_from(s, i) ==> #[trigger] s[j] is Some,
    decreases s.len() - i,
{
    if i < s.len() && !(s[i] is None) {
        lemma_first_empty_from(s, i + 1);
    }
}

/// `first_empty(s)` points at an empty cell whenever the board is not full,
/// and every cell before it is filled.
pub proof fn lemma_first_empty(s: Seq<Option<u8>>)
    ensures
        0 <= first_empty(s) <= s.len(),
        first_empty(s) < s.len() ==> s[first_empty(s)] is None,
        forall|j: int| 0 <= j < first_empty(s) ==> #[trigger] s[j] is Some,
        !full(s) ==> first_empty(s) < s.len(),
{
    lemma_first_empty_from(s, 0);
    if first_empty(s) == s.len() {
        assert(full(s));
    }
}

/// A fresh seen-set for one row, column or box: nine flags, all clear.
fn new_flags() -> (v: Vec<bool>)
    ensures
        v@.len() == 9,
        forall|d: int| 0 <= d < 9 ==> !(#[trigger] v@[d]),
{
    let mut v: Vec<bool> = Vec::new();
    let mut i: usize = 0;
    while i < 9
        invariant
            v@.len() == i,
            i <= 9,
            forall|d: int| 0 <= d < i ==> !(#[trigger] v@[d]),
        decreases 9 - i,
    {
        v.push(false);
        i += 1;
    }
    v
}

/// A 9x9 Sudoku board: 81 cells in row-major order, each empty or a
/// digit in 1..=9.
pub struct Board {
    cells: Vec<Option<u8>>,
}

impl View for Board {
    type V = Seq<Option<u8>>;

    closed spec fn view(&self) -> Seq<Option<u8>> {
        self.cells@
    }
}

impl Board {
    /// The board is well formed: 81 cells, digits in range.
    pub open spec fn wf(&self) -> bool {
        board_wf(self@)
    }

    /// Builds a board from 81 row-major cells; rejects any other length
    /// and any digit outside 1..=9.
    pub fn from_cells(cells: Vec<Option<u8>>) -> (r: Option<Board>)
        ensures
            r is Some <==> board_wf(cells@),
            r matches Some(b) ==> b@ == cells@ && b.wf(),
    {
        if cells.len() != 81 {
            return None;
        }
        let mut i: usize = 0;
        while i < 81
            invariant
                cells@.len() == 81,
                i <= 81,
                forall|j: int| 0 <= j < i ==> cell_ok(#[trigger] cells@[j]),
            decreases 81 - i,
        {
            if let Some(d) = cells[i] {
                if d < 1 || d > 9 {
                    proof {
                        assert(!cell_ok(cells@[i as int]));
                    }
                    return None;
                }
            }
            i += 1;
        }
        Some(Board { cells })
    }

    /// The board with all 81 cells empty.
    pub fn empty() -> (b: Board)
        ensures
            b.wf(),
            forall|i: int| 0 <= i < 81 ==> #[trigger] b@[i] is None,
    {
        let mut cells: Vec<Option<u8>> = Vec::new();
        let mut i: usize = 0;
        while i < 81
            invariant
                cells@.len() == i,
                i <= 81,
                forall|j: int| 0 <= j < i ==> #[trigger] cells@[j] is None,
            decreases 81 - i,
        {
            cells.push(None);
            i += 1;
        }
        Board { cells }
    }

    /// The cell in row `y`, column `x`.
    pub fn get(&self, y: usize, x: usize) -> (c: Option<u8>)
        requires
            self.wf(),
            y < 9,
            x < 9,
        ensures
            c == self@[cell_index(y as int, x as int)],
    {
        self.cells[y * 9 + x]
    }

    /// An independent copy of the board.
    pub fn duplicate(&self) -> (r: Board)
        ensures
            r@ == self@,
    {
        let mut cells: Vec<Option<u8>> = Vec::new();
        let mut i: usize = 0;
        while i < self.cells.len()
            invariant
                i <= self.cells.len(),
                cells@.len() == i,
                forall|j: int| 0 <= j < i ==> cells@[j] == self.cells@[j],
            decreases self.cells.len() - i,
        {
            cells.push(self.cells[i]);
            i += 1;
        }
        proof {
            assert(cells@ =~= self.cells@);
        }
        Board { cells }
    }

    /// Writes digit `d` into the cell at row-major position `i`.
    pub(crate) fn set_cell(&mut self, i: usize, d: u8)
        requires
            old(self).wf(),
            i < 81,
            1 <= d <= 9,
        ensures
            final(self)@ == old(self)@.update(i as int, Some(d)),
            final(self).wf(),
    {
        self.cells[i] = Some(d);
        proof {
            assert(cells_ok(self@)) by {
                assert(forall|j: int|
                    0 <= j < self@.len() && j != i ==> self@[j] == old(self)@[j]);
            }
        }
    }

    /// The row-major position of the first empty cell.
    pub(crate) fn first_empty_index(&self) -> (i: usize)
        requires
            self.wf(),
            !full(self@),
        ensures
            i as int == first_empty(self@),
            i < 81,
            self@[i as int] is None,
    {
        let mut i: usize = 0;
        while i < 81
            invariant
                self.wf(),
                !full(self@),
                i <= 81,
                forall|j: int| 0 <= j < i ==> #[trigger] self@[j] is Some,
            decreases 81 - i,
        {
            if self.cells[i].is_none() {
                proof {
                    lemma_first_empty(self@);
                }
                return i;
            }
            i += 1;
        }
        proof {
            assert(full(self@));
            assert(false);
        }
        0
    }

    /// For each of the 9 rows, no digit 1..=9 appears more than once among
    /// the filled cells of that row; empty cells are ignored.
    pub fn satisfies_row_constraints(&self) -> (r: bool)
        requires
            self.wf(),
        ensures
            r == rows_ok(self@),
    {
        let ghost s = self@;
        let mut y: usize = 0;
        while y < 9
            invariant
                self.wf(),
                s == self@,
                y <= 9,
                forall|yy: int| 0 <= yy < y ==> #[trigger] row_ok(s, yy),
            decreases 9 - y,
        {
            let mut seen = new_flags();
            let mut x: usize = 0;
            while x < 9
                invariant
                    self.wf(),
                    s == self@,
                    y < 9,
                    x <= 9,
                    seen@.len() == 9,
                    forall|d: int| 0 <= d < 9 ==> ((#[trigger] seen@[d]) <==> exists|xx: int|
                        0 <= xx < x && #[trigger] has_digit(s[cell_index(y as int, xx)], d + 1)),
                    forall|x1: int, x2: int|
                        #![trigger s[cell_index(y as int, x1)], s[cell_index(y as int, x2)]]
                        0 <= x1 < x && 0 <= x2 < x && x1 != x2 && s[cell_index(y as int, x1)] is Some
                            ==> s[cell_index(y as int, x1)] != s[cell_index(y as int, x2)],
                decreases 9 - x,
            {
                let ci: usize = y * 9 + x;
                if let Some(digit) = self.cells[ci] {
                    proof {
                        assert(cell_ok(s[ci as int]));
                    }
                    let di: usize = (digit - 1) as usize;
                    proof {
                        assert(has_digit(s[cell_index(y as int, x as int)], di as int + 1));
                    }
                    if seen[di] {
                        proof {
                            let xx = choose|xx: int|
                                0 <= xx < x && #[trigger] has_digit(
                                    s[cell_index(y as int, xx)], di as int + 1);
                            assert(!row_ok(s, y as int)) by {
                                if row_ok(s, y as int) {
                                    assert(s[cell_index(y as int, xx)]
                                        != s[cell_index(y as int, x as int)]);
                                    assert(false);
                                }
                            }
                            assert(!rows_ok(s));
                        }
                        return false;
                    }
                    seen[di] = true;
                    proof {
                        assert forall|x1: int|
                            0 <= x1 < x && s[cell_index(y as int, x1)] is Some
                                implies s[cell_index(y as int, x1)]
                                    != s[cell_index(y as int, x as int)] by {
                            if s[cell_index(y as int, x1)] == s[cell_index(y as int, x as int)] {
                                assert(has_digit(s[cell_index(y as int, x1)], di as int + 1));
                            }
                        }
                    }
                }
                x += 1;
            }
            proof {
                assert(row_ok(s, y as int));
            }
            y += 1;
        }
        true
    }

    /// For each of the 9 columns, no digit 1..=9 appears more than once
    /// among the filled cells of that column; empty cells are ignored.
    pub fn satisfies_column_constraints(&self) -> (r: bool)
        requires
            self.wf(),
        ensures
            r == cols_ok(self@),
    {
        let ghost s = self@;
        let mut x: usize = 0;
        while x < 9
            invariant
                self.wf(),
                s == self@,
                x <= 9,
                forall|xx: int| 0 <= xx < x ==> #[trigger] col_ok(s, xx),
            decreases 9 - x,
        {
            let mut seen = new_flags();
            let mut y: usize = 0;
            while y < 9
                invariant
                    self.wf(),
                    s == self@,
                    x < 9,
                    y <= 9,
                    seen@.len() == 9,
                    forall|d: int| 0 <= d < 9 ==> ((#[trigger] seen@[d]) <==> exists|yy: int|
                        0 <= yy < y && #[trigger] has_digit(s[cell_index(yy, x as int)], d + 1)),
                    forall|y1: int, y2: int|
                        #![trigger s[cell_index(y1, x as int)], s[cell_index(y2, x as int)]]
                        0 <= y1 < y && 0 <= y2 < y && y1 != y2 && s[cell_index(y1, x as int)] is Some
                            ==> s[cell_index(y1, x as int)] != s[cell_index(y2, x as int)],
                decreases 9 - y,
            {
                let ci: usize = y * 9 + x;
                if let Some(digit) = self.cells[ci] {
                    proof {
                        assert(cell_ok(s[ci as int]));
                    }
                    let di: usize = (digit - 1) as usize;
                    proof {
                        assert(has_digit(s[cell_index(y as int, x as int)], di as int + 1));
                    }
                    if seen[di] {
                        proof {
                            let yy = choose|yy: int|
                                0 <= yy < y && #[trigger] has_digit(
                                    s[cell_index(yy, x as int)], di as int + 1);
                            assert(!col_ok(s, x as int)) by {
                                if col_ok(s, x as int) {
                                    assert(s[cell_index(yy, x as int)]
                                        != s[cell_index(y as int, x as int)]);
                                    assert(false);
                                }
                            }
                            assert(!cols_ok(s));
                        }
                        return false;
                    }
                    seen[di] = true;
                    proof {
                        assert forall|y1: int|
                            0 <= y1 < y && s[cell_index(y1, x as int)] is Some
                                implies s[cell_index(y1, x as int)]
                                    != s[cell_index(y as int, x as int)] by {
                            if s[cell_index(y1, x as int)] == s[cell_index(y as int, x as int)] {
                                assert(has_digit(s[cell_index(y1, x as int)], di as int + 1));
                            }
                        }
                    }
                }
                y += 1;
            }
            proof {
                assert(col_ok(s, x as int));
            }
            x += 1;
        }
        true
    }

    /// For each of the 9 boxes, no digit 1..=9 appears more than once among
    /// the filled cells of that 3x3 box; empty cells are ignored.
    pub fn satisfies_box_constraints(&self) -> (r: bool)
        requires
            self.wf(),
        ensures
            r == boxes_ok(self@),
    {
        let ghost s = self@;
        let mut b: usize = 0;
        while b < 9
            invariant
                self.wf(),
                s == self@,
                b <= 9,
                forall|bb: int| 0 <= bb < b ==> #[trigger] box_ok(s, bb),
            decreases 9 - b,
        {
            let mut seen = new_flags();
            let mut k: usize = 0;
            while k < 9
                invariant
                    self.wf(),
                    s == self@,
                    b < 9,
                    k <= 9,
                    seen@.len() == 9,
                    forall|d: int| 0 <= d < 9 ==> ((#[trigger] seen@[d]) <==> exists|kk: int|
                        0 <= kk < k && #[trigger] has_digit(s[box_index(b as int, kk)], d + 1)),
                    forall|k1: int, k2: int|
                        #![trigger s[box_index(b as int, k1)], s[box_index(b as int, k2)]]
                        0 <= k1 < k && 0 <= k2 < k && k1 != k2 && s[box_index(b as int, k1)] is Some
                            ==> s[box_index(b as int, k1)] != s[box_index(b as int, k2)],
                decreases 9 - k,
            {
                proof {
                    assert(b as int / 3 <= 2 && k as int / 3 <= 2
                        && b as int % 3 <= 2 && k as int % 3 <= 2) by (nonlinear_arith)
                        requires b < 9 && k < 9;
                }
                let cy: usize = (b / 3) * 3 + k / 3;
                let cx: usize = (b % 3) * 3 + k % 3;
                let ci: usize = cy * 9 + cx;
                proof {
                    assert(ci as int == box_index(b as int, k as int));
                }
                if let Some(digit) = self.cells[ci] {
                    proof {
                        assert(cell_ok(s[ci as int]));
                    }
                    let di: usize = (digit - 1) as usize;
                    proof {
                        assert(has_digit(s[box_index(b as int, k as int)], di as int + 1));
                    }
                    if seen[di] {
                        proof {
                            let kk = choose|kk: int|
                                0 <= kk < k && #[trigger] has_digit(
                                    s[box_index(b as int, kk)], di as int + 1);
                            assert(!box_ok(s, b as int)) by {
                                if box_ok(s, b as int) {
                                    assert(s[box_index(b as int, kk)]
                                        != s[box_index(b as int, k as int)]);
                                    assert(false);
                                }
                            }
                            assert(!boxes_ok(s));
                        }
                        return false;
                    }
                    seen[di] = true;
                    proof {
                        assert forall|k1: int|
                            0 <= k1 < k && s[box_index(b as int, k1)] is Some
                                implies s[box_index(b as int, k1)]
                                    != s[box_index(b as int, k as int)] by {
                            if s[box_index(b as int, k1)] == s[box_index(b as int, k as int)] {
                                assert(has_digit(s[box_index(b as int, k1)], di as int + 1));
                            }
                        }
                    }
                }
                k += 1;
            }
            proof {
                assert(box_ok(s, b as int));
            }
            b += 1;
        }
        true
    }

    /// True iff all of the row, column and box constraints hold: the single
    /// authority on whether a (possibly partial) assignment is legal.
    pub fn satisfies_constraints(&self) -> (r: bool)
        requires
            self.wf(),
        ensures
            r == consistent(self@),
    {
        self.satisfies_row_constraints() && self.satisfies_column_constraints()
            && self.satisfies_box_constraints()
    }

    /// True iff the board is full and satisfies all constraints.
    pub fn is_solved(&self) -> (r: bool)
        requires
            self.wf(),
        ensures
            r == solved(self@),
    {
        self.is_full() && self.satisfies_constraints()
    }

    /// True iff every one of the 81 cells holds a digit.
    pub fn is_full(&self) -> (r: bool)
        requires
            self.wf(),
        ensures
            r == full(self@),
    {
        let mut i: usize = 0;
        while i < 81
            invariant
                self.wf(),
                i <= 81,
                forall|j: int| 0 <= j < i ==> #[trigger] self@[j] is Some,
            decreases 81 - i,
        {
            if self.cells[i].is_none() {
                return false;
            }
            i += 1;
        }
        true
    }
}

} // verus!
