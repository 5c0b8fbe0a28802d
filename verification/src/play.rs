use vstd::prelude::*;
use crate::field::{Board, Cell, CellState, CellValue, Field, positions};
use crate::flood::revealed_from;
use crate::grid::{
    adjacent, inside, neighbor_seq, lemma_neighbor_seq, lemma_filter_take_step, lemma_filter_members,
    same_values, lemma_same_values_consistent,
};

verus! {

/// Seen as a predicate on positions: the state of the cell there is `s`
/// (when `equal`), or is not `s` (otherwise).
pub open spec fn state_test(b: Board, s: CellState, equal: bool) -> spec_fn((int, int)) -> bool {
    |p: (int, int)| (b.cell(p.0, p.1).state == s) == equal
}

/// The neighbours of `(r, c)` in state `s`, in row-major order.
pub open spec fn neighbors_in_state(b: Board, r: int, c: int, s: CellState) -> Seq<(int, int)> {
    neighbor_seq(b.rows, b.cols, r, c).filter(state_test(b, s, true))
}

/// The neighbours of `(r, c)` that are not revealed, in row-major order.
pub open spec fn hidden_neighbors(b: Board, r: int, c: int) -> Seq<(int, int)> {
    neighbor_seq(b.rows, b.cols, r, c).filter(state_test(b, CellState::Revealed, false))
}

/// The board after flagging the cell at `(r, c)`: only an unflagged cell changes.
pub open spec fn flagged_at(b: Board, r: int, c: int) -> Board {
    if b.cell(r, c).state == CellState::Unflagged {
        b.with_state(r, c, CellState::Flagged)
    } else {
        b
    }
}

/// The board after unflagging the cell at `(r, c)`: only a flagged cell changes.
pub open spec fn unflagged_at(b: Board, r: int, c: int) -> Board {
    if b.cell(r, c).state == CellState::Flagged {
        b.with_state(r, c, CellState::Unflagged)
    } else {
        b
    }
}

/// `auto_flag` acts on `(r, c)`: it is a `Value(n)` with exactly `n`
/// neighbours that are not revealed.
pub open spec fn auto_flag_applies(b: Board, r: int, c: int) -> bool {
    b.cell(r, c).value == CellValue::Value(hidden_neighbors(b, r, c).len() as usize)
}

/// The board with every neighbour of `(r, c)` that is not revealed flagged.
pub open spec fn flagged_around(b: Board, r: int, c: int) -> Board {
    Board {
        rows: b.rows,
        cols: b.cols,
        cells: Seq::new(
            b.rows as nat,
            |i: int|
                Seq::new(
                    b.cols as nat,
                    |j: int|
                        if adjacent((i, j), (r, c)) && b.cells[i][j].state != CellState::Revealed {
                            Cell { value: b.cells[i][j].value, state: CellState::Flagged }
                        } else {
                            b.cells[i][j]
                        },
                ),
        ),
    }
}

/// `auto_reveal` acts on `(r, c)`: it is a `Value(n)` with exactly `n` flagged neighbours.
pub open spec fn auto_reveal_applies(b: Board, r: int, c: int) -> bool {
    b.cell(r, c).value == CellValue::Value(
        neighbors_in_state(b, r, c, CellState::Flagged).len() as usize,
    )
}

/// The board after revealing the cells of `list` one after the other.
pub open spec fn reveal_all(b: Board, list: Seq<(int, int)>) -> Board
    decreases list.len(),
{
    if list.len() == 0 {
        b
    } else {
        let before = reveal_all(b, list.drop_last());
        revealed_from(before, list.last().0, list.last().1)
    }
}

impl Field {
    /// The neighbours of the specified cell whose state is `state` (when `equal`)
    /// or is not `state` (otherwise), in row-major order.
    fn select_neighbors(&self, row: usize, col: usize, state: CellState, equal: bool) -> (res: Vec<(usize, usize)>)
        requires
            self@.shaped(),
            row < self@.rows,
            col < self@.cols,
        ensures
            positions(res@) == neighbor_seq(self@.rows, self@.cols, row as int, col as int).filter(
                state_test(self@, state, equal),
            ),
            forall|i: int| 0 <= i < res@.len() ==> (#[trigger] res@[i]).0 < self@.rows && res@[i].1 < self@.cols,
    {
        let ghost b = self@;
        let ghost ns = neighbor_seq(b.rows, b.cols, row as int, col as int);
        let ghost pred = state_test(b, state, equal);
        let neighbors = self.neighbors_of(row, col);
        proof {
            lemma_neighbor_seq(b.rows, b.cols, row as int, col as int);
        }
        let mut res: Vec<(usize, usize)> = Vec::new();
        let mut k: usize = 0;
        while k < neighbors.len()
            invariant
                b == self@,
                b.shaped(),
                pred == state_test(b, state, equal),
                ns == neighbor_seq(b.rows, b.cols, row as int, col as int),
                k <= neighbors@.len(),
                positions(neighbors@) == ns,
                forall|i: int| 0 <= i < ns.len() ==> inside(b.rows, b.cols, #[trigger] ns[i]),
                positions(res@) == ns.take(k as int).filter(pred),
                forall|i: int| 0 <= i < res@.len() ==> (#[trigger] res@[i]).0 < b.rows && res@[i].1 < b.cols,
            decreases neighbors@.len() - k,
        {
            let (r, c) = neighbors[k];
            proof {
                lemma_filter_take_step(ns, pred, k as int);
                assert(ns[k as int] == (r as int, c as int));
            }
            let here = self.cell(r, c).state;
            let same = match (here, state) {
                (CellState::Unflagged, CellState::Unflagged) => true,
                (CellState::Flagged, CellState::Flagged) => true,
                (CellState::Revealed, CellState::Revealed) => true,
                _ => false,
            };
            assert(same == (here == state));
            assert(pred(ns[k as int]) == ((b.cell(r as int, c as int).state == state) == equal));
            if same == equal {
                let ghost before = res@;
                res.push((r, c));
                assert(positions(res@) =~= positions(before).push((r as int, c as int)));
            }
            k = k + 1;
        }
        assert(ns.take(ns.len() as int) =~= ns);
        res
    }

    /// Flag the specified cell (if it is not already flagged or revealed).
    ///
    /// Requires `row` and `col` to lie inside the field.
    pub fn flag(&mut self, row: usize, col: usize)
        requires
            old(self).wf(),
            row < old(self)@.rows,
            col < old(self)@.cols,
        ensures
            final(self).wf(),
            final(self)@ == flagged_at(old(self)@, row as int, col as int),
    {
        let ghost b0 = self@;
        let this_cell = self.cell(row, col);
        if this_cell.state == CellState::Unflagged {
            self.set_state(row, col, CellState::Flagged);
            proof {
                lemma_same_values_consistent(b0, self@);
            }
        }
    }

    /// Remove the flag from the specified cell (if it is flagged).
    ///
    /// Requires `row` and `col` to lie inside the field.
    pub fn unflag(&mut self, row: usize, col: usize)
        requires
            old(self).wf(),
            row < old(self)@.rows,
            col < old(self)@.cols,
        ensures
            final(self).wf(),
            final(self)@ == unflagged_at(old(self)@, row as int, col as int),
    {
        let ghost b0 = self@;
        let this_cell = self.cell(row, col);
        if this_cell.state == CellState::Flagged {
            self.set_state(row, col, CellState::Unflagged);
            proof {
                lemma_same_values_consistent(b0, self@);
            }
        }
    }

    /// If the specified cell is a `Value(n)` and neighbors only `n` unrevealed cells, flag those cells.
    ///
    /// Requires `row` and `col` to lie inside the field.
    pub fn auto_flag(&mut self, row: usize, col: usize)
        requires
            old(self).wf(),
            row < old(self)@.rows,
            col < old(self)@.cols,
        ensures
            final(self).wf(),
            final(self)@ == if auto_flag_applies(old(self)@, row as int, col as int) {
                flagged_around(old(self)@, row as int, col as int)
            } else {
                old(self)@
            },
    {
        let ghost b0 = self@;
        let ghost s = (row as int, col as int);
        let this_cell = self.cell(row, col);
        let hidden = self.select_neighbors(row, col, CellState::Revealed, false);
        let ghost hs = positions(hidden@);
        proof {
            lemma_neighbor_seq(b0.rows, b0.cols, s.0, s.1);
            lemma_filter_members(neighbor_seq(b0.rows, b0.cols, s.0, s.1), state_test(b0, CellState::Revealed, false));
        }
        let hidden_count = hidden.len();
        let applies = match this_cell.value {
            CellValue::Value(x) => x == hidden_count,
            CellValue::Mine => false,
        };
        if applies {
            let mut k: usize = 0;
            while k < hidden.len()
                invariant
                    k <= hidden@.len(),
                    hs == positions(hidden@),
                    hs == hidden_neighbors(b0, s.0, s.1),
                    forall|i: int| 0 <= i < hidden@.len() ==> (#[trigger] hidden@[i]).0 < b0.rows && hidden@[i].1 < b0.cols,
                    forall|x: (int, int)| #[trigger] hs.contains(x) <==> neighbor_seq(b0.rows, b0.cols, s.0, s.1).contains(x) && state_test(b0, CellState::Revealed, false)(x),
                    self.wf(),
                    b0.shaped(),
                    self@.rows == b0.rows,
                    self@.cols == b0.cols,
                    same_values(b0, self@),
                    forall|i: int, j: int|
                        #![trigger self@.cells[i][j]]
                        b0.in_bounds(i, j) ==> self@.cell(i, j).state == if hs.take(k as int).contains((i, j)) {
                            CellState::Flagged
                        } else {
                            b0.cell(i, j).state
                        },
                decreases hidden@.len() - k,
            {
                let (r, c) = hidden[k];
                let ghost bm = self@;
                assert(hs[k as int] == (r as int, c as int));
                self.flag(r, c);
                proof {
                    let b = self@;
                    bm.lemma_with_state(r as int, c as int, CellState::Flagged);
                    assert(hs.take(k + 1) =~= hs.take(k as int).push((r as int, c as int)));
                    assert(hs.contains((r as int, c as int)));
                    assert(state_test(b0, CellState::Revealed, false)((r as int, c as int)));
                    assert(b0.cell(r as int, c as int).state != CellState::Revealed);
                    assert(bm.cells[r as int][c as int] == bm.cell(r as int, c as int));
                    assert(b.cell(r as int, c as int).state == CellState::Flagged);
                    assert forall|i: int, j: int|
                        #![trigger b.cells[i][j]]
                        b0.in_bounds(i, j) implies b.cell(i, j).state == if hs.take(k + 1).contains((i, j)) {
                            CellState::Flagged
                        } else {
                            b0.cell(i, j).state
                        } by {
                        assert(bm.cells[i][j] == bm.cell(i, j));
                        let t0 = hs.take(k as int);
                        let t1 = hs.take(k + 1);
                        assert(t1[k as int] == (r as int, c as int));
                        if i == r && j == c {
                            assert(t1.contains((i, j)));
                        } else {
                            assert(b.cell(i, j) == bm.cell(i, j));
                            if t1.contains((i, j)) {
                                let w = choose|w: int| 0 <= w < t1.len() && #[trigger] t1[w] == (i, j);
                                assert(w < k);
                                assert(t0[w] == (i, j));
                            }
                            if t0.contains((i, j)) {
                                let w = choose|w: int| 0 <= w < t0.len() && #[trigger] t0[w] == (i, j);
                                assert(t1[w] == (i, j));
                            }
                        }
                    }
                    assert forall|i: int, j: int| b0.in_bounds(i, j) implies (#[trigger] b.cell(i, j)).value == b0.cell(i, j).value by {
                        assert(bm.cells[i][j] == bm.cell(i, j));
                    }
                }
                k = k + 1;
            }
            proof {
                let b = self@;
                let goal = flagged_around(b0, s.0, s.1);
                assert(hs.take(hs.len() as int) =~= hs);
                assert forall|i: int| 0 <= i < b0.rows implies #[trigger] b.cells[i] =~= goal.cells[i] by {
                    assert forall|j: int| 0 <= j < b0.cols implies b.cells[i][j] == #[trigger] goal.cells[i][j] by {
                        assert(b.cells[i][j] == b.cell(i, j));
                        assert(b.cell(i, j).value == b0.cell(i, j).value);
                        if adjacent((i, j), s) {
                            assert(neighbor_seq(b0.rows, b0.cols, s.0, s.1).contains((i, j)));
                        }
                        if hs.contains((i, j)) {
                        }
                    }
                }
                assert(b.cells =~= goal.cells);
            }
        }
    }

    /// If the cell at the specified location is a `Value(n)` and it already neighbors `n` flagged cells,
    /// reveal the neighboring unflagged cells.
    ///
    /// Requires `row` and `col` to lie inside the field.
    pub fn auto_reveal(&mut self, row: usize, col: usize)
        requires
            old(self).wf(),
            row < old(self)@.rows,
            col < old(self)@.cols,
        ensures
            final(self).wf(),
            final(self)@.rows == old(self)@.rows,
            final(self)@.cols == old(self)@.cols,
            final(self)@ == if auto_reveal_applies(old(self)@, row as int, col as int) {
                reveal_all(
                    old(self)@,
                    neighbors_in_state(old(self)@, row as int, col as int, CellState::Unflagged),
                )
            } else {
                old(self)@
            },
    {
        let ghost b0 = self@;
        let this_cell = self.cell(row, col);
        let flagged_neighbors = self.select_neighbors(row, col, CellState::Flagged, true);
        let unflagged_neighbors = self.select_neighbors(row, col, CellState::Unflagged, true);
        let ghost us = positions(unflagged_neighbors@);
        let applies = match this_cell.value {
            CellValue::Value(x) => x == flagged_neighbors.len(),
            CellValue::Mine => false,
        };
        if applies {
            let mut k: usize = 0;
            while k < unflagged_neighbors.len()
                invariant
                    k <= unflagged_neighbors@.len(),
                    us == positions(unflagged_neighbors@),
                    forall|i: int| 0 <= i < unflagged_neighbors@.len() ==> (#[trigger] unflagged_neighbors@[i]).0 < b0.rows && unflagged_neighbors@[i].1 < b0.cols,
                    self.wf(),
                    self@.rows == b0.rows,
                    self@.cols == b0.cols,
                    self@ == reveal_all(b0, us.take(k as int)),
                decreases unflagged_neighbors@.len() - k,
            {
                let (r, c) = unflagged_neighbors[k];
                assert(us[k as int] == (r as int, c as int));
                self.reveal_cell(r, c);
                assert(us.take(k + 1).drop_last() =~= us.take(k as int));
                k = k + 1;
            }
            assert(us.take(us.len() as int) =~= us);
        }
    }
}

} // verus!
