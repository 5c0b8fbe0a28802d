use vstd::prelude::*;
use crate::field::{Board, Cell, CellState, CellValue, Field};

verus! {

/// A mine has been revealed.
pub open spec fn is_lost(b: Board) -> bool {
    exists|r: int, c: int|
        #![trigger b.cells[r][c]]
        b.in_bounds(r, c) && b.cell(r, c).state == CellState::Revealed && b.cell(r, c).value
            == CellValue::Mine
}

/// No mine has been revealed and every cell that is not revealed is a mine.
pub open spec fn is_won(b: Board) -> bool {
    &&& !is_lost(b)
    &&& forall|r: int, c: int|
        #![trigger b.cells[r][c]]
        b.in_bounds(r, c) && b.cell(r, c).state != CellState::Revealed ==> b.cell(r, c).value
            == CellValue::Mine
}

/// Seen as a predicate on cells: the cell is revealed (when `revealed`), or not.
pub open spec fn revealed_test(revealed: bool) -> spec_fn(Cell) -> bool {
    |cell: Cell| (cell.state == CellState::Revealed) == revealed
}

/// A cell occurs in the flattened rows exactly when it stands at some row and column.
pub proof fn lemma_flatten_contains(s: Seq<Seq<Cell>>, x: Cell)
    ensures
        s.flatten().contains(x) <==> exists|i: int, j: int|
            #![trigger s[i][j]]
            0 <= i < s.len() && 0 <= j < s[i].len() && s[i][j] == x,
    decreases s.len(),
{
    if s.len() > 0 {
        let rest = s.drop_first();
        lemma_flatten_contains(rest, x);
        let f = s.flatten();
        assert(f == s[0] + rest.flatten());
        if f.contains(x) {
            let k = choose|k: int| 0 <= k < f.len() && f[k] == x;
            if k < s[0].len() {
                assert(s[0][k] == x);
            } else {
                assert(rest.flatten()[k - s[0].len()] == x);
                let (i, j) = choose|i: int, j: int|
                    #![trigger rest[i][j]]
                    0 <= i < rest.len() && 0 <= j < rest[i].len() && rest[i][j] == x;
                assert(s[i + 1][j] == x);
            }
        }
        if exists|i: int, j: int| #![trigger s[i][j]] 0 <= i < s.len() && 0 <= j < s[i].len() && s[i][j] == x {
            let (i, j) = choose|i: int, j: int|
                #![trigger s[i][j]]
                0 <= i < s.len() && 0 <= j < s[i].len() && s[i][j] == x;
            if i == 0 {
                assert(f[j] == x);
            } else {
                assert(rest[i - 1][j] == x);
                assert(rest.flatten().contains(x));
                let k = choose|k: int| 0 <= k < rest.flatten().len() && rest.flatten()[k] == x;
                assert(f[k + s[0].len()] == x);
            }
        }
    }
}

impl Field {
    /// All the cells of the field, row by row.
    pub fn iter(&self) -> (res: Vec<Cell>)
        requires
            self@.shaped(),
        ensures
            res@ == self@.cells.flatten(),
    {
        let ghost b = self@;
        let mut res: Vec<Cell> = Vec::new();
        let mut r: usize = 0;
        while r < self.rows()
            invariant
                b == self@,
                b.shaped(),
                r <= b.rows,
                res@ == b.cells.take(r as int).flatten_alt(),
            decreases b.rows - r,
        {
            let mut c: usize = 0;
            while c < self.cols()
                invariant
                    b == self@,
                    b.shaped(),
                    r < b.rows,
                    c <= b.cols,
                    res@ == b.cells.take(r as int).flatten_alt() + b.cells[r as int].take(c as int),
                decreases b.cols - c,
            {
                let cell = self.cell(r, c);
                res.push(cell);
                assert(b.cells[r as int].take(c + 1) =~= b.cells[r as int].take(c as int).push(cell));
                c = c + 1;
            }
            assert(b.cells.take(r + 1).drop_last() =~= b.cells.take(r as int));
            assert(b.cells[r as int].take(b.cols) =~= b.cells[r as int]);
            r = r + 1;
        }
        assert(b.cells.take(b.rows) =~= b.cells);
        proof {
            b.cells.lemma_flatten_and_flatten_alt_are_equivalent();
        }
        res
    }

    /// The cells that are revealed (when `revealed`) or not (otherwise), row by row.
    fn cells_where(&self, revealed: bool) -> (res: Vec<Cell>)
        requires
            self@.shaped(),
        ensures
            res@ == self@.cells.flatten().filter(revealed_test(revealed)),
    {
        let all = self.iter();
        let ghost pred = revealed_test(revealed);
        let mut res: Vec<Cell> = Vec::new();
        let mut k: usize = 0;
        while k < all.len()
            invariant
                k <= all@.len(),
                pred == revealed_test(revealed),
                res@ == all@.take(k as int).filter(pred),
            decreases all@.len() - k,
        {
            let cell = all[k];
            proof {
                crate::grid::lemma_filter_take_step(all@, pred, k as int);
            }
            let is_revealed = match cell.state {
                CellState::Revealed => true,
                _ => false,
            };
            if is_revealed == revealed {
                res.push(cell);
            }
            k = k + 1;
        }
        assert(all@.take(all@.len() as int) =~= all@);
        res
    }

    /// The cells of the field that have been revealed, row by row.
    pub fn revealed_cells(&self) -> (res: Vec<Cell>)
        requires
            self@.shaped(),
        ensures
            res@ == self@.cells.flatten().filter(revealed_test(true)),
    {
        self.cells_where(true)
    }

    /// The cells of the field that are not revealed, row by row.
    pub fn not_revealed_cells(&self) -> (res: Vec<Cell>)
        requires
            self@.shaped(),
        ensures
            res@ == self@.cells.flatten().filter(revealed_test(false)),
    {
        self.cells_where(false)
    }

    /// Returns `true` if the game has been lost.
    pub fn lost(&self) -> (res: bool)
        requires
            self@.shaped(),
        ensures
            res == is_lost(self@),
    {
        let ghost b = self@;
        let revealed = self.revealed_cells();
        let ghost f = b.cells.flatten();
        proof {
            crate::grid::lemma_filter_members(f, revealed_test(true));
        }
        let mut k: usize = 0;
        while k < revealed.len()
            invariant
                k <= revealed@.len(),
                b == self@,
                b.shaped(),
                f == b.cells.flatten(),
                revealed@ == f.filter(revealed_test(true)),
                forall|i: int| 0 <= i < k ==> (#[trigger] revealed@[i]).value != CellValue::Mine,
            decreases revealed@.len() - k,
        {
            if revealed[k].value == CellValue::Mine {
                proof {
                    let x = revealed@[k as int];
                    crate::grid::lemma_filter_members(f, revealed_test(true));
                    assert(revealed@.contains(x));
                    assert(f.contains(x) && revealed_test(true)(x));
                    lemma_flatten_contains(b.cells, x);
                    let (i, j) = choose|i: int, j: int|
                        #![trigger b.cells[i][j]]
                        0 <= i < b.cells.len() && 0 <= j < b.cells[i].len() && b.cells[i][j] == x;
                    assert(b.cells[i][j] == b.cell(i, j));
                }
                return true;
            }
            k = k + 1;
        }
        proof {
            if is_lost(b) {
                let (i, j) = choose|i: int, j: int|
                    #![trigger b.cells[i][j]]
                    b.in_bounds(i, j) && b.cell(i, j).state == CellState::Revealed && b.cell(i, j).value
                        == CellValue::Mine;
                let x = b.cells[i][j];
                lemma_flatten_contains(b.cells, x);
                assert(revealed_test(true)(x));
                assert(revealed@.contains(x));
                let w = choose|w: int| 0 <= w < revealed@.len() && revealed@[w] == x;
                assert(revealed@[w].value != CellValue::Mine);
            }
        }
        false
    }

    /// Returns `true` if the game has been won.
    pub fn won(&self) -> (res: bool)
        requires
            self@.shaped(),
        ensures
            res == is_won(self@),
    {
        let ghost b = self@;
        if self.lost() {
            return false;
        }
        let hidden = self.not_revealed_cells();
        let ghost f = b.cells.flatten();
        proof {
            crate::grid::lemma_filter_members(f, revealed_test(false));
        }
        let mut k: usize = 0;
        while k < hidden.len()
            invariant
                k <= hidden@.len(),
                b == self@,
                b.shaped(),
                f == b.cells.flatten(),
                hidden@ == f.filter(revealed_test(false)),
                forall|i: int| 0 <= i < k ==> (#[trigger] hidden@[i]).value == CellValue::Mine,
            decreases hidden@.len() - k,
        {
            if hidden[k].value != CellValue::Mine {
                proof {
                    let x = hidden@[k as int];
                    crate::grid::lemma_filter_members(f, revealed_test(false));
                    assert(hidden@.contains(x));
                    assert(f.contains(x) && revealed_test(false)(x));
                    lemma_flatten_contains(b.cells, x);
                    let (i, j) = choose|i: int, j: int|
                        #![trigger b.cells[i][j]]
                        0 <= i < b.cells.len() && 0 <= j < b.cells[i].len() && b.cells[i][j] == x;
                    assert(b.cells[i][j] == b.cell(i, j));
                }
                return false;
            }
            k = k + 1;
        }
        proof {
            assert forall|i: int, j: int|
                #![trigger b.cells[i][j]]
                b.in_bounds(i, j) && b.cell(i, j).state != CellState::Revealed implies b.cell(i, j).value
                    == CellValue::Mine by {
                let x = b.cells[i][j];
                lemma_flatten_contains(b.cells, x);
                assert(revealed_test(false)(x));
                assert(hidden@.contains(x));
                let w = choose|w: int| 0 <= w < hidden@.len() && hidden@[w] == x;
                assert(hidden@[w].value == CellValue::Mine);
            }
        }
        true
    }
}

} // verus!
