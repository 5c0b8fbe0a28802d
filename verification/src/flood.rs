use vstd::prelude::*;
use vstd::set_lib::{set_int_range, lemma_int_range, lemma_len_subset};
use crate::field::{Board, Cell, CellState, CellValue, Field};
use crate::grid::{adjacent, inside, neighbor_seq, lemma_neighbor_seq, same_values, lemma_same_values_consistent};

verus! {

/// A chain of cells along which revealing spreads: each step goes to a touching
/// cell, every cell but the last is empty (`Value(0)`), and every cell after the
/// first was not revealed yet.
pub open spec fn is_spread_path(b: Board, path: Seq<(int, int)>) -> bool {
    &&& path.len() >= 1
    &&& forall|k: int| #![trigger path[k]] 0 <= k < path.len() ==> b.in_bounds(path[k].0, path[k].1)
    &&& forall|k: int|
        #![trigger path[k]]
        0 <= k < path.len() - 1 ==> adjacent(path[k], path[k + 1]) && b.cell(path[k].0, path[k].1).value
            == CellValue::Value(0)
    &&& forall|k: int|
        #![trigger path[k]]
        1 <= k < path.len() ==> b.cell(path[k].0, path[k].1).state != CellState::Revealed
}

/// Revealing the cell `start` on board `b` also reveals the cell `p`.
pub open spec fn spreads_to(b: Board, start: (int, int), p: (int, int)) -> bool {
    exists|path: Seq<(int, int)>|
        #![trigger is_spread_path(b, path)]
        is_spread_path(b, path) && path[0] == start && path[path.len() - 1] == p
}

/// The board after revealing the cell at `(r, c)`: every cell to which revealing
/// spreads is revealed, every other cell is as it was.
pub open spec fn revealed_from(b: Board, r: int, c: int) -> Board {
    Board {
        rows: b.rows,
        cols: b.cols,
        cells: Seq::new(
            b.rows as nat,
            |i: int|
                Seq::new(
                    b.cols as nat,
                    |j: int|
                        if spreads_to(b, (r, c), (i, j)) {
                            Cell { value: b.cells[i][j].value, state: CellState::Revealed }
                        } else {
                            b.cells[i][j]
                        },
                ),
        ),
    }
}

/// Revealing a cell reaches that cell itself.
pub proof fn lemma_spreads_to_self(b: Board, start: (int, int))
    requires
        b.in_bounds(start.0, start.1),
    ensures
        spreads_to(b, start, start),
{
    assert(is_spread_path(b, seq![start]));
}

/// The cells of a board that are not revealed.
pub open spec fn hidden_cells(b: Board) -> Set<(int, int)> {
    Set::new(|p: (int, int)| b.in_bounds(p.0, p.1) && b.cell(p.0, p.1).state != CellState::Revealed)
}

/// All positions of a `rows` x `cols` board.
pub open spec fn grid_cells(rows: int, cols: int) -> Set<(int, int)> {
    Set::new(|p: (int, int)| inside(rows, cols, p))
}

pub proof fn lemma_grid_cells_finite(rows: int, cols: int)
    requires
        rows >= 0,
        cols >= 0,
    ensures
        grid_cells(rows, cols).finite(),
    decreases rows,
{
    if rows == 0 {
        assert(grid_cells(rows, cols) =~= Set::empty());
    } else {
        lemma_grid_cells_finite(rows - 1, cols);
        lemma_int_range(0, cols);
        let last = set_int_range(0, cols).map(|c: int| (rows - 1, c));
        set_int_range(0, cols).lemma_map_finite(|c: int| (rows - 1, c));
        assert forall|p: (int, int)| #[trigger] grid_cells(rows, cols).contains(p) implies grid_cells(rows - 1, cols).union(last).contains(p) by {
            if p.0 == rows - 1 {
                assert(set_int_range(0, cols).contains(p.1));
                assert(last.contains((rows - 1, p.1)));
            }
        }
        assert(grid_cells(rows, cols) =~= grid_cells(rows - 1, cols).union(last));
    }
}

/// The hidden cells of a shaped board are finitely many.
pub proof fn lemma_hidden_cells_finite(b: Board)
    requires
        b.shaped(),
    ensures
        hidden_cells(b).finite(),
        hidden_cells(b).subset_of(grid_cells(b.rows, b.cols)),
{
    lemma_grid_cells_finite(b.rows, b.cols);
    lemma_len_subset(hidden_cells(b), grid_cells(b.rows, b.cols));
}

/// `p` is the start of a reveal or a cell that the reveal uncovered.
pub open spec fn uncovered(b0: Board, b1: Board, start: (int, int), p: (int, int)) -> bool {
    p == start || (b0.cell(p.0, p.1).state != CellState::Revealed && b1.cell(p.0, p.1).state
        == CellState::Revealed)
}

/// If the cell at `p` is empty, all its neighbours are revealed.
pub open spec fn surroundings_revealed(b: Board, p: (int, int)) -> bool {
    b.cell(p.0, p.1).value == CellValue::Value(0) ==> forall|q: (int, int)|
        #![trigger adjacent(p, q)]
        b.in_bounds(q.0, q.1) && adjacent(p, q) ==> b.cell(q.0, q.1).state == CellState::Revealed
}

/// From `b0` to `b1`, revealed cells stay revealed, values stay, and a state
/// only changes to `Revealed`.
pub open spec fn only_reveals(b0: Board, b1: Board) -> bool {
    &&& b1.shaped()
    &&& same_values(b0, b1)
    &&& forall|r: int, c: int|
        #![trigger b1.cells[r][c]]
        b0.in_bounds(r, c) && b0.cell(r, c).state == CellState::Revealed ==> b1.cell(r, c).state
            == CellState::Revealed
    &&& forall|r: int, c: int|
        #![trigger b1.cells[r][c]]
        b0.in_bounds(r, c) && b1.cell(r, c).state != b0.cell(r, c).state ==> b1.cell(r, c).state
            == CellState::Revealed
}

/// What the recursive reveal guarantees, from which the exact result follows.
pub open spec fn spread_done(b0: Board, b1: Board, start: (int, int)) -> bool {
    &&& only_reveals(b0, b1)
    &&& forall|r: int, c: int|
        #![trigger b1.cells[r][c]]
        b0.in_bounds(r, c) && b1.cell(r, c).state != b0.cell(r, c).state ==> spreads_to(
            b0,
            start,
            (r, c),
        )
    &&& b1.cell(start.0, start.1).state == CellState::Revealed
    &&& forall|r: int, c: int|
        #![trigger b1.cells[r][c]]
        b0.in_bounds(r, c) && uncovered(b0, b1, start, (r, c)) ==> surroundings_revealed(b1, (r, c))
}

proof fn lemma_only_reveals_trans(b0: Board, b1: Board, b2: Board)
    requires
        b0.shaped(),
        only_reveals(b0, b1),
        only_reveals(b1, b2),
    ensures
        only_reveals(b0, b2),
        hidden_cells(b2).subset_of(hidden_cells(b1)),
{
    assert forall|r: int, c: int| b0.in_bounds(r, c) implies (#[trigger] b2.cell(r, c)).value == b0.cell(
        r,
        c,
    ).value by {
        assert(b1.cell(r, c).value == b0.cell(r, c).value);
    }
    assert forall|r: int, c: int|
        #![trigger b2.cells[r][c]]
        b0.in_bounds(r, c) && b2.cell(r, c).state != b0.cell(r, c).state implies b2.cell(r, c).state
        == CellState::Revealed by {
        assert(b1.cells[r][c] == b1.cell(r, c));
    }
    assert forall|r: int, c: int|
        #![trigger b2.cells[r][c]]
        b0.in_bounds(r, c) && b0.cell(r, c).state == CellState::Revealed implies b2.cell(r, c).state
        == CellState::Revealed by {
        assert(b1.cells[r][c] == b1.cell(r, c));
    }
    assert forall|p: (int, int)| #[trigger] hidden_cells(b2).contains(p) implies hidden_cells(b1).contains(p) by {
        assert(b2.cells[p.0][p.1] == b2.cell(p.0, p.1));
    }
}

/// Spreading from a neighbour `y` of an empty `start` is spreading from `start`.
proof fn lemma_spread_extend(b0: Board, bm: Board, start: (int, int), y: (int, int), p: (int, int))
    requires
        b0.shaped(),
        only_reveals(b0, bm),
        b0.in_bounds(start.0, start.1),
        b0.cell(start.0, start.1).value == CellValue::Value(0),
        adjacent(start, y),
        bm.in_bounds(y.0, y.1),
        bm.cell(y.0, y.1).state != CellState::Revealed,
        spreads_to(bm, y, p),
    ensures
        spreads_to(b0, start, p),
{
    let path = choose|path: Seq<(int, int)>|
        #![trigger is_spread_path(bm, path)]
        is_spread_path(bm, path) && path[0] == y && path[path.len() - 1] == p;
    let longer = seq![start] + path;
    assert forall|k: int| #![trigger longer[k]] 1 <= k < longer.len() implies b0.cell(longer[k].0, longer[k].1).state
        != CellState::Revealed by {
        let q = path[k - 1];
        assert(longer[k] == q);
        assert(bm.in_bounds(q.0, q.1));
        assert(bm.cells[q.0][q.1] == bm.cell(q.0, q.1));
        assert(bm.cell(q.0, q.1).state != CellState::Revealed);
    }
    assert forall|k: int| #![trigger longer[k]] 0 <= k < longer.len() - 1 implies adjacent(longer[k], longer[k + 1])
        && b0.cell(longer[k].0, longer[k].1).value == CellValue::Value(0) by {
        if k > 0 {
            assert(longer[k] == path[k - 1]);
            assert(longer[k + 1] == path[k]);
            assert(bm.in_bounds(path[k - 1].0, path[k - 1].1));
            assert(bm.cell(path[k - 1].0, path[k - 1].1).value == b0.cell(path[k - 1].0, path[k - 1].1).value);
        } else {
            assert(longer[1] == path[0]);
        }
    }
    assert forall|k: int| #![trigger longer[k]] 0 <= k < longer.len() implies b0.in_bounds(longer[k].0, longer[k].1) by {
        if k > 0 {
            assert(longer[k] == path[k - 1]);
        }
    }
    assert(is_spread_path(b0, longer));
    assert(longer[longer.len() - 1] == path[path.len() - 1]);
}

/// Along a path of spreading, every cell ends up revealed and uncovered.
proof fn lemma_path_revealed(b0: Board, b1: Board, start: (int, int), path: Seq<(int, int)>, k: int)
    requires
        b0.shaped(),
        spread_done(b0, b1, start),
        is_spread_path(b0, path),
        path[0] == start,
        0 <= k < path.len(),
    ensures
        b1.cell(path[k].0, path[k].1).state == CellState::Revealed,
        uncovered(b0, b1, start, path[k]),
    decreases k,
{
    if k > 0 {
        lemma_path_revealed(b0, b1, start, path, k - 1);
        let p = path[k - 1];
        let q = path[k];
        assert(b0.in_bounds(p.0, p.1));
        assert(b0.in_bounds(q.0, q.1));
        assert(b1.cells[p.0][p.1] == b1.cell(p.0, p.1));
        assert(b1.cell(p.0, p.1).value == b0.cell(p.0, p.1).value);
        assert(surroundings_revealed(b1, p));
        assert(adjacent(p, q));
    }
}

/// What the recursive reveal guarantees pins down the board it leaves.
proof fn lemma_spread_done_exact(b0: Board, b1: Board, start: (int, int))
    requires
        b0.shaped(),
        spread_done(b0, b1, start),
    ensures
        b1 == revealed_from(b0, start.0, start.1),
{
    let goal = revealed_from(b0, start.0, start.1);
    assert forall|i: int| 0 <= i < b0.rows implies #[trigger] b1.cells[i] =~= goal.cells[i] by {
        assert forall|j: int| 0 <= j < b0.cols implies b1.cells[i][j] == #[trigger] goal.cells[i][j] by {
            assert(b1.cells[i][j] == b1.cell(i, j));
            if spreads_to(b0, start, (i, j)) {
                let path = choose|path: Seq<(int, int)>|
                    #![trigger is_spread_path(b0, path)]
                    is_spread_path(b0, path) && path[0] == start && path[path.len() - 1] == (i, j);
                lemma_path_revealed(b0, b1, start, path, path.len() - 1);
            }
        }
    }
    assert(b1.cells =~= goal.cells);
}

impl Field {
    /// Reveal the cell at the specified location, and spread over empty cells.
    fn reveal_spreading(&mut self, row: usize, col: usize)
        requires
            old(self).wf(),
            row < old(self)@.rows,
            col < old(self)@.cols,
        ensures
            final(self).wf(),
            spread_done(old(self)@, final(self)@, (row as int, col as int)),
        decreases
            hidden_cells(old(self)@).len(),
            if old(self)@.cell(row as int, col as int).state == CellState::Revealed {
                1int
            } else {
                0int
            },
    {
        let ghost b0 = self@;
        let ghost s = (row as int, col as int);
        proof {
            lemma_hidden_cells_finite(b0);
        }
        self.set_state(row, col, CellState::Revealed);
        proof {
            let b = self@;
            assert(same_values(b0, b));
            lemma_same_values_consistent(b0, b);
            let path = seq![s];
            assert(is_spread_path(b0, path));
            assert forall|p: (int, int)| #[trigger] hidden_cells(b).contains(p) implies hidden_cells(b0).contains(p) by {
                assert(b.cells[p.0][p.1] == b.cell(p.0, p.1));
            }
            assert(!hidden_cells(b).contains(s));
        }
        let value = self.cell(row, col).value;
        let empty = match value {
            CellValue::Value(n) => n == 0,
            CellValue::Mine => false,
        };
        if empty {
            let neighbors = self.neighbors_of(row, col);
            let ghost ns = neighbor_seq(b0.rows, b0.cols, s.0, s.1);
            proof {
                lemma_neighbor_seq(b0.rows, b0.cols, s.0, s.1);
            }
            let mut k: usize = 0;
            while k < neighbors.len()
                invariant
                    k <= neighbors@.len(),
                    crate::field::positions(neighbors@) == ns,
                    forall|i: int| 0 <= i < ns.len() ==> inside(b0.rows, b0.cols, #[trigger] ns[i]) && adjacent(ns[i], s),
                    b0 == old(self)@,
                    s == (row as int, col as int),
                    b0.shaped(),
                    b0.in_bounds(s.0, s.1),
                    b0.cell(s.0, s.1).value == CellValue::Value(0),
                    self.wf(),
                    self@.rows == b0.rows,
                    self@.cols == b0.cols,
                    only_reveals(b0, self@),
                    forall|r: int, c: int|
                        #![trigger self@.cells[r][c]]
                        b0.in_bounds(r, c) && self@.cell(r, c).state != b0.cell(r, c).state ==> spreads_to(
                            b0,
                            s,
                            (r, c),
                        ),
                    self@.cell(s.0, s.1).state == CellState::Revealed,
                    forall|r: int, c: int|
                        #![trigger self@.cells[r][c]]
                        b0.in_bounds(r, c) && (r, c) != s && uncovered(b0, self@, s, (r, c)) ==> surroundings_revealed(self@, (r, c)),
                    forall|i: int| 0 <= i < k ==> self@.cell(#[trigger] ns[i].0, ns[i].1).state == CellState::Revealed,
                    hidden_cells(self@).subset_of(hidden_cells(b0)),
                    !hidden_cells(self@).contains(s),
                    hidden_cells(b0).finite(),
                decreases neighbors@.len() - k,
            {
                let (neighbor_row, neighbor_col) = neighbors[k];
                let ghost y = (neighbor_row as int, neighbor_col as int);
                assert(ns[k as int] == y);
                if self.cell(neighbor_row, neighbor_col).state != CellState::Revealed {
                    let ghost bm = self@;
                    proof {
                        lemma_hidden_cells_finite(bm);
                        lemma_len_subset(hidden_cells(bm), hidden_cells(b0));
                        if b0.cell(s.0, s.1).state != CellState::Revealed {
                            assert(hidden_cells(b0).contains(s));
                            hidden_cells(bm).lemma_subset_not_in_lt(hidden_cells(b0), s);
                        }
                    }
                    assert(hidden_cells(bm).len() <= hidden_cells(b0).len());
                    assert(bm.cell(y.0, y.1).state != CellState::Revealed);
                    self.reveal_spreading(neighbor_row, neighbor_col);
                    proof {
                        let b2 = self@;
                        lemma_only_reveals_trans(b0, bm, b2);
                        assert forall|r: int, c: int|
                            #![trigger b2.cells[r][c]]
                            b0.in_bounds(r, c) && b2.cell(r, c).state != b0.cell(r, c).state implies spreads_to(b0, s, (r, c)) by {
                            assert(bm.cells[r][c] == bm.cell(r, c));
                            if b2.cell(r, c).state != bm.cell(r, c).state {
                                lemma_spread_extend(b0, bm, s, y, (r, c));
                            }
                        }
                        assert forall|r: int, c: int|
                            #![trigger b2.cells[r][c]]
                            b0.in_bounds(r, c) && (r, c) != s && uncovered(b0, b2, s, (r, c)) implies surroundings_revealed(b2, (r, c)) by {
                            assert(bm.cells[r][c] == bm.cell(r, c));
                            if uncovered(bm, b2, y, (r, c)) {
                            } else {
                                assert(uncovered(b0, bm, s, (r, c)));
                                assert(surroundings_revealed(bm, (r, c)));
                                assert(b2.cell(r, c).value == bm.cell(r, c).value);
                                if b2.cell(r, c).value == CellValue::Value(0) {
                                    assert forall|q: (int, int)| #![trigger adjacent((r, c), q)]
                                        b2.in_bounds(q.0, q.1) && adjacent((r, c), q) implies b2.cell(q.0, q.1).state == CellState::Revealed by {
                                        assert(bm.cells[q.0][q.1] == bm.cell(q.0, q.1));
                                        assert(b2.cells[q.0][q.1] == b2.cell(q.0, q.1));
                                    }
                                }
                            }
                        }
                        assert forall|i: int| 0 <= i < k + 1 implies b2.cell(#[trigger] ns[i].0, ns[i].1).state == CellState::Revealed by {
                            assert(inside(b0.rows, b0.cols, ns[i]));
                            assert(bm.cells[ns[i].0][ns[i].1] == bm.cell(ns[i].0, ns[i].1));
                            assert(b2.cells[ns[i].0][ns[i].1] == b2.cell(ns[i].0, ns[i].1));
                        }
                        assert(bm.cells[s.0][s.1] == bm.cell(s.0, s.1));
                        assert(b2.cells[s.0][s.1] == b2.cell(s.0, s.1));
                        assert(!hidden_cells(b2).contains(s));
                    }
                }
                k = k + 1;
            }
            proof {
                let b = self@;
                assert(surroundings_revealed(b, s)) by {
                    assert forall|q: (int, int)| #![trigger adjacent(s, q)]
                        b.in_bounds(q.0, q.1) && adjacent(s, q) implies b.cell(q.0, q.1).state == CellState::Revealed by {
                        assert(adjacent(q, s));
                        assert(ns.contains(q));
                    }
                }
            }
        }
        proof {
            let b = self@;
            assert forall|r: int, c: int|
                #![trigger b.cells[r][c]]
                b0.in_bounds(r, c) && uncovered(b0, b, s, (r, c)) implies surroundings_revealed(b, (r, c)) by {
                if (r, c) == s && !empty {
                    assert(b.cell(r, c).value == value);
                }
            }
        }
    }

    /// Reveal the cell at the specified location.
    /// If the revealed cell is a `Value(0)`, then reveal the cells around it automatically.
    ///
    /// Requires `row` and `col` to lie inside the field.
    pub fn reveal_cell(&mut self, row: usize, col: usize)
        requires
            old(self).wf(),
            row < old(self)@.rows,
            col < old(self)@.cols,
        ensures
            final(self).wf(),
            final(self)@ == revealed_from(old(self)@, row as int, col as int),
    {
        let ghost b0 = self@;
        self.reveal_spreading(row, col);
        proof {
            lemma_spread_done_exact(b0, self@, (row as int, col as int));
        }
    }
}

} // verus!
