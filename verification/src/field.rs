use vstd::prelude::*;
use crate::grid::{
    offset, neighbor_seq, neighbors_upto, consistent, lemma_neighbor_seq, lemma_filter_take_step,
    marked_in, value_from_matrix, lemma_matrix_consistent,
};

verus! {

/// What a cell holds: a mine, or the number of mines among its neighbours.
#[derive(Debug, Clone, Copy, PartialEq, Eq, Structural)]
pub enum CellValue {
    Mine,
    Value(usize),
}

/// What the player has done with a cell.
#[derive(Debug, Clone, Copy, PartialEq, Eq, Structural)]
pub enum CellState {
    Unflagged,
    Flagged,
    Revealed,
}

/// A cell that may contain a mine or else indicates how many of its neighbors are mines.
#[derive(Debug, Clone, Copy)]
pub struct Cell {
    pub value: CellValue,
    pub state: CellState,
}

impl Default for Cell {
    fn default() -> (cell: Self)
        ensures
            cell == (Cell { value: CellValue::Value(0), state: CellState::Unflagged }),
    {
        Cell { value: CellValue::Value(0), state: CellState::Unflagged }
    }
}

/// The mathematical picture of a field: its size and its cells, row by row.
pub struct Board {
    pub rows: int,
    pub cols: int,
    pub cells: Seq<Seq<Cell>>,
}

impl Board {
    pub open spec fn in_bounds(self, r: int, c: int) -> bool {
        0 <= r < self.rows && 0 <= c < self.cols
    }

    pub open spec fn cell(self, r: int, c: int) -> Cell {
        self.cells[r][c]
    }

    /// `cells` holds `rows` rows of `cols` cells each.
    pub open spec fn shaped(self) -> bool {
        &&& self.rows >= 0
        &&& self.cols >= 0
        &&& self.cells.len() == self.rows
        &&& forall|r: int| 0 <= r < self.rows ==> #[trigger] self.cells[r].len() == self.cols
    }

    /// The same board with the state of the cell at `(r, c)` set to `s`.
    pub open spec fn with_state(self, r: int, c: int, s: CellState) -> Board {
        Board {
            rows: self.rows,
            cols: self.cols,
            cells: self.cells.update(
                r,
                self.cells[r].update(c, Cell { value: self.cells[r][c].value, state: s }),
            ),
        }
    }

    /// The same board with the cell at `(r, c)` replaced.
    pub open spec fn with_cell(self, r: int, c: int, cell: Cell) -> Board {
        Board {
            rows: self.rows,
            cols: self.cols,
            cells: self.cells.update(r, self.cells[r].update(c, cell)),
        }
    }

    /// Looking up a cell after one cell was replaced.
    pub proof fn lemma_with_cell(self, r: int, c: int, cell: Cell)
        requires
            self.shaped(),
            self.in_bounds(r, c),
        ensures
            self.with_cell(r, c, cell).shaped(),
            forall|i: int, j: int|
                self.in_bounds(i, j) ==> #[trigger] self.with_cell(r, c, cell).cell(i, j) == if i == r
                    && j == c {
                    cell
                } else {
                    self.cell(i, j)
                },
    {
        let b = self.with_cell(r, c, cell);
        assert forall|i: int| 0 <= i < self.rows implies #[trigger] b.cells[i].len() == self.cols by {
            if i != r {
                assert(b.cells[i] == self.cells[i]);
            }
        }
    }

    /// Looking up a cell after the state of one cell was set.
    pub proof fn lemma_with_state(self, r: int, c: int, s: CellState)
        requires
            self.shaped(),
            self.in_bounds(r, c),
        ensures
            self.with_state(r, c, s).shaped(),
            self.with_state(r, c, s) == self.with_cell(r, c, Cell { value: self.cell(r, c).value, state: s }),
            forall|i: int, j: int|
                self.in_bounds(i, j) ==> #[trigger] self.with_state(r, c, s).cell(i, j) == if i == r
                    && j == c {
                    Cell { value: self.cell(r, c).value, state: s }
                } else {
                    self.cell(i, j)
                },
    {
        self.lemma_with_cell(r, c, Cell { value: self.cell(r, c).value, state: s });
    }

}

/// A `rows` * `cols` field of mines.
pub struct Field {
    cells: Vec<Vec<Cell>>,
    rows: usize,
    cols: usize,
}

impl View for Field {
    type V = Board;

    closed spec fn view(&self) -> Board {
        Board {
            rows: self.rows as int,
            cols: self.cols as int,
            cells: self.cells@.map_values(|row: Vec<Cell>| row@),
        }
    }
}

/// A sequence of index pairs read as mathematical positions.
pub open spec fn positions(s: Seq<(usize, usize)>) -> Seq<(int, int)> {
    s.map_values(|p: (usize, usize)| (p.0 as int, p.1 as int))
}

/// The direction `k` of the eight around a cell, as row and column steps.
fn direction(k: usize) -> (d: (i8, i8))
    requires
        k < 8,
    ensures
        d.0 as int == offset(k as int).0,
        d.1 as int == offset(k as int).1,
{
    if k == 0 {
        (-1, -1)
    } else if k == 1 {
        (-1, 0)
    } else if k == 2 {
        (-1, 1)
    } else if k == 3 {
        (0, -1)
    } else if k == 4 {
        (0, 1)
    } else if k == 5 {
        (1, -1)
    } else if k == 6 {
        (1, 0)
    } else {
        (1, 1)
    }
}

/// `x + d` when it lies in `0..bound`.
fn step(x: usize, d: i8, bound: usize) -> (res: Option<usize>)
    requires
        -1 <= d <= 1,
    ensures
        match res {
            Some(y) => y == x + d && y < bound,
            None => !(0 <= x + d < bound),
        },
{
    if d < 0 {
        if x == 0 {
            None
        } else if x - 1 < bound {
            Some(x - 1)
        } else {
            None
        }
    } else if d == 0 {
        if x < bound {
            Some(x)
        } else {
            None
        }
    } else {
        if x < bound && x + 1 < bound {
            Some(x + 1)
        } else {
            None
        }
    }
}

/// The contents of a matrix of flags, row by row.
pub open spec fn bool_grid(m: &Vec<Vec<bool>>) -> Seq<Seq<bool>> {
    m@.map_values(|row: Vec<bool>| row@)
}

/// A `rows` x `cols` matrix of `false`.
fn false_matrix(rows: usize, cols: usize) -> (m: Vec<Vec<bool>>)
    ensures
        m@.len() == rows,
        forall|i: int| 0 <= i < rows ==> #[trigger] m@[i]@.len() == cols,
        forall|i: int, j: int| 0 <= i < rows && 0 <= j < cols ==> !#[trigger] m@[i]@[j],
{
    let mut m: Vec<Vec<bool>> = Vec::new();
    let mut r: usize = 0;
    while r < rows
        invariant
            r <= rows,
            m@.len() == r,
            forall|i: int| 0 <= i < r ==> #[trigger] m@[i]@.len() == cols,
            forall|i: int, j: int| 0 <= i < r && 0 <= j < cols ==> !#[trigger] m@[i]@[j],
        decreases rows - r,
    {
        let mut row: Vec<bool> = Vec::new();
        let mut c: usize = 0;
        while c < cols
            invariant
                c <= cols,
                row@.len() == c,
                forall|j: int| 0 <= j < c ==> !#[trigger] row@[j],
            decreases cols - c,
        {
            row.push(false);
            c = c + 1;
        }
        m.push(row);
        r = r + 1;
    }
    m
}

impl Field {
    /// The field has its shape and every cell that is not a mine holds the
    /// number of mines around it.
    pub open spec fn wf(&self) -> bool {
        &&& self@.shaped()
        &&& consistent(self@)
    }

    /// Initialize an empty field with no mines.
    fn new(rows: usize, cols: usize) -> (field: Self)
        ensures
            field@.shaped(),
            field@.rows == rows,
            field@.cols == cols,
            forall|r: int, c: int|
                field@.in_bounds(r, c) ==> #[trigger] field@.cell(r, c) == (Cell {
                    value: CellValue::Value(0),
                    state: CellState::Unflagged,
                }),
    {
        let mut cells: Vec<Vec<Cell>> = Vec::new();
        let mut r: usize = 0;
        while r < rows
            invariant
                r <= rows,
                cells@.len() == r,
                forall|i: int| 0 <= i < r ==> #[trigger] cells@[i]@.len() == cols,
                forall|i: int, j: int|
                    0 <= i < r && 0 <= j < cols ==> #[trigger] cells@[i]@[j] == (Cell {
                        value: CellValue::Value(0),
                        state: CellState::Unflagged,
                    }),
            decreases rows - r,
        {
            let mut row: Vec<Cell> = Vec::new();
            let mut c: usize = 0;
            while c < cols
                invariant
                    c <= cols,
                    row@.len() == c,
                    forall|j: int| 0 <= j < c ==> #[trigger] row@[j] == (Cell {
                        value: CellValue::Value(0),
                        state: CellState::Unflagged,
                    }),
                decreases cols - c,
            {
                row.push(Cell::default());
                c = c + 1;
            }
            cells.push(row);
            r = r + 1;
        }
        let field = Field { cells, rows, cols };
        assert(field@.shaped());
        field
    }

    /// Initialize a field with mines at the specified locations.
    ///
    /// Requires every location to lie inside the field.
    pub fn new_with_mines_at(rows: usize, cols: usize, locations: &[(usize, usize)]) -> (field: Self)
        requires
            forall|k: int| 0 <= k < locations@.len() ==> (#[trigger] locations@[k]).0 < rows && locations@[k].1 < cols,
        ensures
            field.wf(),
            field@.rows == rows,
            field@.cols == cols,
            forall|r: int, c: int|
                field@.in_bounds(r, c) ==> (#[trigger] field@.cell(r, c)).state == CellState::Unflagged
                    && ((field@.cell(r, c).value == CellValue::Mine) <==> locations@.contains(
                    (r as usize, c as usize),
                )),
    {
        let mut mines_matrix = false_matrix(rows, cols);
        let mut k: usize = 0;
        while k < locations.len()
            invariant
                k <= locations@.len(),
                forall|k: int| 0 <= k < locations@.len() ==> (#[trigger] locations@[k]).0 < rows && locations@[k].1 < cols,
                mines_matrix@.len() == rows,
                forall|i: int| 0 <= i < rows ==> #[trigger] mines_matrix@[i]@.len() == cols,
                forall|i: int, j: int|
                    0 <= i < rows && 0 <= j < cols ==> #[trigger] mines_matrix@[i]@[j] == locations@.take(
                        k as int,
                    ).contains((i as usize, j as usize)),
            decreases locations@.len() - k,
        {
            let (row, col) = locations[k];
            let ghost m0 = mines_matrix@;
            mines_matrix[row][col] = true;
            proof {
                let t0 = locations@.take(k as int);
                let t1 = locations@.take(k + 1);
                assert(t1 =~= t0.push((row, col)));
                assert forall|i: int, j: int| 0 <= i < rows && 0 <= j < cols implies #[trigger] mines_matrix@[i]@[j] == t1.contains((i as usize, j as usize)) by {
                    if i == row && j == col {
                        assert(t1[k as int] == (row, col));
                    } else {
                        assert(mines_matrix@[i]@[j] == m0[i]@[j]);
                        if t1.contains((i as usize, j as usize)) {
                            let w = choose|w: int| 0 <= w < t1.len() && t1[w] == (i as usize, j as usize);
                            assert(t0[w] == t1[w]);
                        }
                        if t0.contains((i as usize, j as usize)) {
                            let w = choose|w: int| 0 <= w < t0.len() && t0[w] == (i as usize, j as usize);
                            assert(t0[w] == t1[w]);
                        }
                    }
                }
            }
            k = k + 1;
        }
        assert(locations@.take(locations@.len() as int) =~= locations@);
        let field = Self::new_from_bool_matrix(rows, cols, mines_matrix);
        proof {
            assert forall|r: int, c: int| field@.in_bounds(r, c) implies (#[trigger] field@.cell(r, c)).state == CellState::Unflagged
                && ((field@.cell(r, c).value == CellValue::Mine) <==> locations@.contains((r as usize, c as usize))) by {
                assert(bool_grid(&mines_matrix)[r][c] == mines_matrix@[r]@[c]);
            }
        }
        field
    }

    /// Initialize a field with mines where the specified matrix is `true`.
    ///
    /// Requires, when `cols > 0`, at least `rows` rows of at least `cols` entries.
    pub fn new_from_bool_matrix(rows: usize, cols: usize, mines_matrix: Vec<Vec<bool>>) -> (field: Self)
        requires
            cols > 0 ==> mines_matrix@.len() >= rows,
            cols > 0 ==> forall|i: int| 0 <= i < rows ==> #[trigger] mines_matrix@[i]@.len() >= cols,
        ensures
            field.wf(),
            field@.rows == rows,
            field@.cols == cols,
            forall|r: int, c: int|
                field@.in_bounds(r, c) ==> (#[trigger] field@.cell(r, c)).state == CellState::Unflagged
                    && ((field@.cell(r, c).value == CellValue::Mine) <==> bool_grid(&mines_matrix)[r][c]),
    {
        let ghost m = bool_grid(&mines_matrix);
        let mut field = Field::new(rows, cols);
        let mut row: usize = 0;
        while row < rows
            invariant
                row <= rows,
                cols > 0 ==> mines_matrix@.len() >= rows,
                cols > 0 ==> forall|i: int| 0 <= i < rows ==> #[trigger] mines_matrix@[i]@.len() >= cols,
                m == bool_grid(&mines_matrix),
                field@.shaped(),
                field@.rows == rows,
                field@.cols == cols,
                forall|i: int, j: int|
                    field@.in_bounds(i, j) ==> (#[trigger] field@.cell(i, j)).state == CellState::Unflagged,
                forall|i: int, j: int|
                    field@.in_bounds(i, j) && i < row ==> (#[trigger] field@.cell(i, j)).value
                        == value_from_matrix(m, rows as int, cols as int, i, j),
            decreases rows - row,
        {
            let mut col: usize = 0;
            while col < cols
                invariant
                    row < rows,
                    col <= cols,
                    cols > 0 ==> mines_matrix@.len() >= rows,
                    cols > 0 ==> forall|i: int| 0 <= i < rows ==> #[trigger] mines_matrix@[i]@.len() >= cols,
                    m == bool_grid(&mines_matrix),
                    field@.shaped(),
                    field@.rows == rows,
                    field@.cols == cols,
                    forall|i: int, j: int|
                        field@.in_bounds(i, j) ==> (#[trigger] field@.cell(i, j)).state == CellState::Unflagged,
                    forall|i: int, j: int|
                        field@.in_bounds(i, j) && (i < row || (i == row && j < col)) ==> (#[trigger] field@.cell(i, j)).value
                            == value_from_matrix(m, rows as int, cols as int, i, j),
                decreases cols - col,
            {
                assert(m[row as int][col as int] == mines_matrix@[row as int]@[col as int]);
                if mines_matrix[row][col] {
                    field.set_cell(row, col, Cell { value: CellValue::Mine, state: CellState::Unflagged });
                } else {
                    let neighbors = field.neighbors_of(row, col);
                    let ghost s = neighbor_seq(rows as int, cols as int, row as int, col as int);
                    proof {
                        lemma_neighbor_seq(rows as int, cols as int, row as int, col as int);
                    }
                    let mut neighbor_mine_count: usize = 0;
                    let mut k: usize = 0;
                    while k < neighbors.len()
                        invariant
                            k <= neighbors@.len(),
                            positions(neighbors@) == s,
                            s.len() <= 8,
                            forall|i: int| 0 <= i < s.len() ==> crate::grid::inside(rows as int, cols as int, #[trigger] s[i]),
                            cols > 0 ==> mines_matrix@.len() >= rows,
                            cols > 0 ==> forall|i: int| 0 <= i < rows ==> #[trigger] mines_matrix@[i]@.len() >= cols,
                            m == bool_grid(&mines_matrix),
                            neighbor_mine_count == s.take(k as int).filter(marked_in(m)).len(),
                            neighbor_mine_count <= k,
                        decreases neighbors@.len() - k,
                    {
                        let (neighbor_row, neighbor_col) = neighbors[k];
                        proof {
                            lemma_filter_take_step(s, marked_in(m), k as int);
                            assert(s[k as int] == (neighbor_row as int, neighbor_col as int));
                            assert(m[neighbor_row as int][neighbor_col as int] == mines_matrix@[neighbor_row as int]@[neighbor_col as int]);
                        }
                        if mines_matrix[neighbor_row][neighbor_col] {
                            neighbor_mine_count = neighbor_mine_count + 1;
                        }
                        k = k + 1;
                    }
                    assert(s.take(s.len() as int) =~= s);
                    field.set_cell(row, col, Cell { value: CellValue::Value(neighbor_mine_count), state: CellState::Unflagged });
                }
                col = col + 1;
            }
            row = row + 1;
        }
        proof {
            lemma_matrix_consistent(field@, m);
        }
        field
    }

    /// The cell at the specified location.
    ///
    /// Requires `row` and `col` to lie inside the field.
    pub fn cell(&self, row: usize, col: usize) -> (cell: Cell)
        requires
            self@.shaped(),
            row < self@.rows,
            col < self@.cols,
        ensures
            cell == self@.cell(row as int, col as int),
    {
        self.cells[row][col]
    }

    /// Replace the cell at the specified location.
    fn set_cell(&mut self, row: usize, col: usize, cell: Cell)
        requires
            old(self)@.shaped(),
            row < old(self)@.rows,
            col < old(self)@.cols,
        ensures
            final(self)@ == old(self)@.with_cell(row as int, col as int, cell),
            final(self)@.shaped(),
            forall|i: int, j: int|
                old(self)@.in_bounds(i, j) ==> #[trigger] final(self)@.cell(i, j) == if i == row
                    && j == col {
                    cell
                } else {
                    old(self)@.cell(i, j)
                },
    {
        proof {
            self@.lemma_with_cell(row as int, col as int, cell);
        }
        let ghost b0 = self@;
        assert(b0.cells[row as int] == self.cells@[row as int]@);
        self.cells[row][col] = cell;
        assert(self@.cells =~= b0.with_cell(row as int, col as int, cell).cells);
    }

    /// Set the state of the cell at the specified location.
    pub(crate) fn set_state(&mut self, row: usize, col: usize, state: CellState)
        requires
            old(self)@.shaped(),
            row < old(self)@.rows,
            col < old(self)@.cols,
        ensures
            final(self)@ == old(self)@.with_state(row as int, col as int, state),
            final(self)@.shaped(),
            forall|i: int, j: int|
                old(self)@.in_bounds(i, j) ==> #[trigger] final(self)@.cell(i, j) == if i == row
                    && j == col {
                    Cell { value: old(self)@.cell(i, j).value, state }
                } else {
                    old(self)@.cell(i, j)
                },
    {
        proof {
            self@.lemma_with_state(row as int, col as int, state);
        }
        assert(self@.cells[row as int] == self.cells@[row as int]@);
        let value = self.cells[row][col].value;
        self.set_cell(row, col, Cell { value, state });
    }

    /// Returns a vec containing the `(row, col)` indices of the neighbors of the specified cell,
    /// row by row. The coordinates it returns are always valid.
    pub fn neighbors_of(&self, row: usize, col: usize) -> (res: Vec<(usize, usize)>)
        requires
            self@.shaped(),
            row < self@.rows,
            col < self@.cols,
        ensures
            positions(res@) == neighbor_seq(self@.rows, self@.cols, row as int, col as int),
    {
        let mut res: Vec<(usize, usize)> = Vec::new();
        let mut k: usize = 0;
        while k < 8
            invariant
                k <= 8,
                positions(res@) == neighbors_upto(
                    self.rows as int,
                    self.cols as int,
                    row as int,
                    col as int,
                    k as nat,
                ),
            decreases 8 - k,
        {
            let d = direction(k);
            let nr = step(row, d.0, self.rows);
            let nc = step(col, d.1, self.cols);
            let ghost old_res = res@;
            match nr {
                Some(r) => match nc {
                    Some(c) => {
                        res.push((r, c));
                        assert(positions(res@) =~= positions(old_res).push((r as int, c as int)));
                    },
                    None => {},
                },
                None => {},
            }
            k = k + 1;
        }
        res
    }

    pub fn rows(&self) -> (n: usize)
        ensures
            n == self@.rows,
    {
        self.rows
    }

    pub fn cols(&self) -> (n: usize)
        ensures
            n == self@.cols,
    {
        self.cols
    }
}

} // verus!
