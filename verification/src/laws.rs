use vstd::prelude::*;
use crate::field::{Board, CellState, CellValue};
use crate::flood::{is_spread_path, spreads_to, revealed_from, surroundings_revealed, lemma_spreads_to_self};
use crate::play::{
    flagged_at, unflagged_at, flagged_around, reveal_all, auto_reveal_applies, neighbors_in_state,
    state_test, auto_flag_applies, hidden_neighbors,
};
use crate::field::Cell;
use crate::game::flagged_mine;
use crate::grid::{
    adjacent, consistent, inside, mine_at, mine_count, neighbor_seq, lemma_neighbor_seq,
    lemma_filter_members,
};
use crate::status::is_lost;
use vstd::set_lib::lemma_map_size;

verus! {

/// A cell whose value is not a mine and that has no mine around it is empty.
pub proof fn lemma_no_mines_around_is_empty(b: Board, r: int, c: int)
    requires
        b.shaped(),
        consistent(b),
        b.in_bounds(r, c),
        b.cell(r, c).value != CellValue::Mine,
        forall|p: (int, int)|
            b.in_bounds(p.0, p.1) && adjacent(p, (r, c)) ==> #[trigger] b.cell(p.0, p.1).value != CellValue::Mine,
    ensures
        b.cell(r, c).value == CellValue::Value(0),
{
    lemma_neighbor_seq(b.rows, b.cols, r, c);
    let s = neighbor_seq(b.rows, b.cols, r, c);
    lemma_filter_members(s, mine_at(b));
    let f = s.filter(mine_at(b));
    if f.len() > 0 {
        assert(s.contains(f[0]) && mine_at(b)(f[0]));
        let k = choose|k: int| 0 <= k < s.len() && s[k] == f[0];
        assert(inside(b.rows, b.cols, s[k]) && adjacent(s[k], (r, c)));
        assert(b.cell(s[k].0, s[k].1).value != CellValue::Mine);
    }
    assert(b.cells[r][c] == b.cell(r, c));
}

/// An empty cell has no mine around it.
pub proof fn lemma_empty_has_no_mines_around(b: Board, r: int, c: int, p: (int, int))
    requires
        b.shaped(),
        consistent(b),
        b.in_bounds(r, c),
        b.cell(r, c).value == CellValue::Value(0),
        b.in_bounds(p.0, p.1),
        adjacent(p, (r, c)),
    ensures
        b.cell(p.0, p.1).value != CellValue::Mine,
{
    lemma_neighbor_seq(b.rows, b.cols, r, c);
    let s = neighbor_seq(b.rows, b.cols, r, c);
    lemma_filter_members(s, mine_at(b));
    assert(b.cells[r][c] == b.cell(r, c));
    assert(mine_count(b, r, c) == 0);
    assert(s.contains(p));
    if b.cell(p.0, p.1).value == CellValue::Mine {
        assert(mine_at(b)(p));
        assert(s.filter(mine_at(b)).contains(p));
    }
}

/// Revealing spreads from a cell that is not a mine only onto cells that are not mines.
pub proof fn lemma_spread_avoids_mines(b: Board, start: (int, int), p: (int, int))
    requires
        b.shaped(),
        consistent(b),
        b.in_bounds(start.0, start.1),
        b.cell(start.0, start.1).value != CellValue::Mine,
        spreads_to(b, start, p),
    ensures
        b.cell(p.0, p.1).value != CellValue::Mine,
{
    let path = choose|path: Seq<(int, int)>|
        #![trigger is_spread_path(b, path)]
        is_spread_path(b, path) && path[0] == start && path[path.len() - 1] == p;
    if path.len() > 1 {
        let q = path[path.len() - 2];
        assert(adjacent(q, path[path.len() - 1]));
        assert(b.in_bounds(q.0, q.1));
        assert(b.in_bounds(p.0, p.1));
        lemma_empty_has_no_mines_around(b, q.0, q.1, p);
    }
}

/// Revealing a cell loses the game exactly when the game was lost already or
/// the cell is a mine.
pub proof fn lemma_reveal_loses_iff_mine(b: Board, r: int, c: int)
    requires
        b.shaped(),
        consistent(b),
        b.in_bounds(r, c),
    ensures
        is_lost(revealed_from(b, r, c)) == (is_lost(b) || b.cell(r, c).value == CellValue::Mine),
{
    let a = revealed_from(b, r, c);
    let path = seq![(r, c)];
    assert(is_spread_path(b, path));
    assert(spreads_to(b, (r, c), (r, c)));
    if b.cell(r, c).value == CellValue::Mine {
        assert(a.cells[r][c] == a.cell(r, c));
    }
    if is_lost(b) {
        let (i, j) = choose|i: int, j: int|
            #![trigger b.cells[i][j]]
            b.in_bounds(i, j) && b.cell(i, j).state == CellState::Revealed && b.cell(i, j).value
                == CellValue::Mine;
        assert(a.cells[i][j] == a.cell(i, j));
    }
    if is_lost(a) && !is_lost(b) && b.cell(r, c).value != CellValue::Mine {
        let (i, j) = choose|i: int, j: int|
            #![trigger a.cells[i][j]]
            a.in_bounds(i, j) && a.cell(i, j).state == CellState::Revealed && a.cell(i, j).value
                == CellValue::Mine;
        if spreads_to(b, (r, c), (i, j)) {
            lemma_spread_avoids_mines(b, (r, c), (i, j));
        } else {
            assert(b.cells[i][j] == b.cell(i, j));
        }
    }
}

/// Every revealed empty cell has all its neighbours revealed.
pub open spec fn settled(b: Board) -> bool {
    forall|r: int, c: int|
        #![trigger b.cells[r][c]]
        b.in_bounds(r, c) && b.cell(r, c).state == CellState::Revealed ==> surroundings_revealed(b, (r, c))
}

/// A field where nothing is revealed yet is settled.
pub proof fn lemma_unrevealed_settled(b: Board)
    requires
        forall|r: int, c: int| b.in_bounds(r, c) ==> (#[trigger] b.cells[r][c]).state != CellState::Revealed,
    ensures
        settled(b),
{
}

/// Revealing keeps the shape of the board and the values of its cells.
pub proof fn lemma_reveal_keeps_shape(b: Board, r: int, c: int)
    requires
        b.shaped(),
    ensures
        revealed_from(b, r, c).shaped(),
        crate::grid::same_values(b, revealed_from(b, r, c)),
        forall|i: int, j: int|
            #![trigger revealed_from(b, r, c).cells[i][j]]
            b.in_bounds(i, j) && b.cell(i, j).state == CellState::Revealed ==> revealed_from(b, r, c).cell(
                i,
                j,
            ).state == CellState::Revealed,
{
    let a = revealed_from(b, r, c);
    assert forall|i: int, j: int| b.in_bounds(i, j) implies (#[trigger] b.cell(i, j)).value == a.cell(i, j).value by {
        assert(a.cells[i][j] == a.cell(i, j));
    }
}

/// Revealing a cell keeps the board settled.
pub proof fn lemma_reveal_keeps_settled(b: Board, r: int, c: int)
    requires
        b.shaped(),
        settled(b),
        b.in_bounds(r, c),
    ensures
        settled(revealed_from(b, r, c)),
{
    let a = revealed_from(b, r, c);
    let s = (r, c);
    lemma_reveal_keeps_shape(b, r, c);
    assert forall|i: int, j: int|
        #![trigger a.cells[i][j]]
        a.in_bounds(i, j) && a.cell(i, j).state == CellState::Revealed implies surroundings_revealed(a, (i, j)) by {
        assert(b.cells[i][j] == b.cell(i, j));
        if a.cell(i, j).value == CellValue::Value(0) {
            assert forall|q: (int, int)| #![trigger adjacent((i, j), q)]
                a.in_bounds(q.0, q.1) && adjacent((i, j), q) implies a.cell(q.0, q.1).state == CellState::Revealed by {
                assert(b.cells[q.0][q.1] == b.cell(q.0, q.1));
                assert(a.cells[q.0][q.1] == a.cell(q.0, q.1));
                if b.cell(q.0, q.1).state != CellState::Revealed {
                    if spreads_to(b, s, (i, j)) {
                        let path = choose|path: Seq<(int, int)>|
                            #![trigger is_spread_path(b, path)]
                            is_spread_path(b, path) && path[0] == s && path[path.len() - 1] == (i, j);
                        let longer = path.push(q);
                        assert(longer[longer.len() - 2] == (i, j));
                        assert(is_spread_path(b, longer));
                        assert(longer[longer.len() - 1] == q);
                    } else {
                        assert(surroundings_revealed(b, (i, j)));
                    }
                }
            }
        }
    }
}

/// Revealing a revealed cell of a settled board changes nothing.
pub proof fn lemma_reveal_revealed_unchanged(b: Board, r: int, c: int)
    requires
        b.shaped(),
        settled(b),
        b.in_bounds(r, c),
        b.cell(r, c).state == CellState::Revealed,
    ensures
        revealed_from(b, r, c) == b,
{
    let a = revealed_from(b, r, c);
    let s = (r, c);
    assert forall|i: int| 0 <= i < b.rows implies #[trigger] a.cells[i] =~= b.cells[i] by {
        assert forall|j: int| 0 <= j < b.cols implies #[trigger] a.cells[i][j] == b.cells[i][j] by {
            if spreads_to(b, s, (i, j)) {
                let path = choose|path: Seq<(int, int)>|
                    #![trigger is_spread_path(b, path)]
                    is_spread_path(b, path) && path[0] == s && path[path.len() - 1] == (i, j);
                if path.len() > 1 {
                    let q = path[1];
                    assert(adjacent(path[0], q));
                    assert(b.cells[r][c] == b.cell(r, c));
                    assert(surroundings_revealed(b, s));
                    assert(adjacent(s, q));
                    assert(b.in_bounds(q.0, q.1));
                }
            }
        }
    }
    assert(a.cells =~= b.cells);
}

/// On a settled board, revealing a cell twice is revealing it once.
pub proof fn lemma_reveal_idempotent(b: Board, r: int, c: int)
    requires
        b.shaped(),
        settled(b),
        b.in_bounds(r, c),
    ensures
        revealed_from(revealed_from(b, r, c), r, c) == revealed_from(b, r, c),
{
    let a = revealed_from(b, r, c);
    lemma_reveal_keeps_shape(b, r, c);
    lemma_reveal_keeps_settled(b, r, c);
    lemma_spreads_to_self(b, (r, c));
    assert(a.cells[r][c] == a.cell(r, c));
    lemma_reveal_revealed_unchanged(a, r, c);
}

/// Revealing cells one after the other keeps a settled board settled.
pub proof fn lemma_reveal_all_keeps_settled(b: Board, list: Seq<(int, int)>)
    requires
        b.shaped(),
        settled(b),
        forall|k: int| 0 <= k < list.len() ==> b.in_bounds(#[trigger] list[k].0, list[k].1),
    ensures
        reveal_all(b, list).shaped(),
        reveal_all(b, list).rows == b.rows,
        reveal_all(b, list).cols == b.cols,
        settled(reveal_all(b, list)),
    decreases list.len(),
{
    if list.len() > 0 {
        let rest = list.drop_last();
        assert forall|k: int| 0 <= k < rest.len() implies b.in_bounds(#[trigger] rest[k].0, rest[k].1) by {
            assert(rest[k] == list[k]);
        }
        lemma_reveal_all_keeps_settled(b, rest);
        let before = reveal_all(b, rest);
        assert(b.in_bounds(list[list.len() - 1].0, list[list.len() - 1].1));
        lemma_reveal_keeps_shape(before, list.last().0, list.last().1);
        lemma_reveal_keeps_settled(before, list.last().0, list.last().1);
    }
}

/// Flagging and unflagging a cell keep a settled board settled.
pub proof fn lemma_flags_keep_settled(b: Board, r: int, c: int)
    requires
        b.shaped(),
        settled(b),
        b.in_bounds(r, c),
    ensures
        settled(flagged_at(b, r, c)),
        settled(unflagged_at(b, r, c)),
        settled(flagged_around(b, r, c)),
{
    b.lemma_with_state(r, c, CellState::Flagged);
    b.lemma_with_state(r, c, CellState::Unflagged);
    let bs = seq![flagged_at(b, r, c), unflagged_at(b, r, c), flagged_around(b, r, c)];
    assert forall|k: int| 0 <= k < 3 implies settled(#[trigger] bs[k]) by {
        let a = bs[k];
        assert forall|i: int, j: int|
            #![trigger a.cells[i][j]]
            a.in_bounds(i, j) && a.cell(i, j).state == CellState::Revealed implies surroundings_revealed(a, (i, j)) by {
            assert(b.cells[i][j] == b.cell(i, j));
            assert(b.cell(i, j).state == CellState::Revealed);
            assert(surroundings_revealed(b, (i, j)));
            if a.cell(i, j).value == CellValue::Value(0) {
                assert forall|q: (int, int)| #![trigger adjacent((i, j), q)]
                    a.in_bounds(q.0, q.1) && adjacent((i, j), q) implies a.cell(q.0, q.1).state == CellState::Revealed by {
                    assert(b.cells[q.0][q.1] == b.cell(q.0, q.1));
                    assert(a.cells[q.0][q.1] == a.cell(q.0, q.1));
                }
            }
        }
    }
    assert(bs[0] == flagged_at(b, r, c));
    assert(bs[1] == unflagged_at(b, r, c));
    assert(bs[2] == flagged_around(b, r, c));
}

/// Unflagging a cell that was just flagged gives back the board.
pub proof fn lemma_flag_then_unflag(b: Board, r: int, c: int)
    requires
        b.shaped(),
        b.in_bounds(r, c),
        b.cell(r, c).state == CellState::Unflagged,
    ensures
        unflagged_at(flagged_at(b, r, c), r, c) == b,
{
    let f = flagged_at(b, r, c);
    b.lemma_with_state(r, c, CellState::Flagged);
    f.lemma_with_state(r, c, CellState::Unflagged);
    let u = unflagged_at(f, r, c);
    assert forall|i: int| 0 <= i < b.rows implies #[trigger] u.cells[i] =~= b.cells[i] by {
        assert forall|j: int| 0 <= j < b.cols implies #[trigger] u.cells[i][j] == b.cells[i][j] by {
            assert(u.cell(i, j) == b.cell(i, j));
        }
    }
    assert(u.cells =~= b.cells);
}

/// Flagging a cell twice is flagging it once.
pub proof fn lemma_flag_idempotent(b: Board, r: int, c: int)
    requires
        b.shaped(),
        b.in_bounds(r, c),
    ensures
        flagged_at(flagged_at(b, r, c), r, c) == flagged_at(b, r, c),
{
    b.lemma_with_state(r, c, CellState::Flagged);
}

/// Flags do not decide the game: flagging and unflagging leave lost and won as they were.
pub proof fn lemma_flags_keep_status(b: Board, r: int, c: int)
    requires
        b.shaped(),
        b.in_bounds(r, c),
    ensures
        is_lost(flagged_at(b, r, c)) == is_lost(b),
        is_lost(unflagged_at(b, r, c)) == is_lost(b),
        crate::status::is_won(flagged_at(b, r, c)) == crate::status::is_won(b),
        crate::status::is_won(unflagged_at(b, r, c)) == crate::status::is_won(b),
{
    b.lemma_with_state(r, c, CellState::Flagged);
    b.lemma_with_state(r, c, CellState::Unflagged);
    let bs = seq![flagged_at(b, r, c), unflagged_at(b, r, c)];
    assert forall|k: int| 0 <= k < 2 implies is_lost(#[trigger] bs[k]) == is_lost(b) && crate::status::is_won(bs[k]) == crate::status::is_won(b) by {
        let a = bs[k];
        assert forall|i: int, j: int| b.in_bounds(i, j) implies ((#[trigger] a.cells[i][j]).state == CellState::Revealed) == (b.cells[i][j].state == CellState::Revealed)
            && a.cells[i][j].value == b.cells[i][j].value by {
            assert(a.cells[i][j] == a.cell(i, j));
            assert(b.cells[i][j] == b.cell(i, j));
        }
        if is_lost(a) {
            let (i, j) = choose|i: int, j: int|
                #![trigger a.cells[i][j]]
                a.in_bounds(i, j) && a.cell(i, j).state == CellState::Revealed && a.cell(i, j).value == CellValue::Mine;
            assert(b.cells[i][j] == b.cell(i, j));
        }
        if is_lost(b) {
            let (i, j) = choose|i: int, j: int|
                #![trigger b.cells[i][j]]
                b.in_bounds(i, j) && b.cell(i, j).state == CellState::Revealed && b.cell(i, j).value == CellValue::Mine;
            assert(a.cells[i][j] == a.cell(i, j));
        }
        if crate::status::is_won(b) {
            assert forall|i: int, j: int|
                #![trigger a.cells[i][j]]
                a.in_bounds(i, j) && a.cell(i, j).state != CellState::Revealed implies a.cell(i, j).value == CellValue::Mine by {
                assert(b.cells[i][j] == b.cell(i, j));
            }
        }
        if crate::status::is_won(a) {
            assert forall|i: int, j: int|
                #![trigger b.cells[i][j]]
                b.in_bounds(i, j) && b.cell(i, j).state != CellState::Revealed implies b.cell(i, j).value == CellValue::Mine by {
                assert(a.cells[i][j] == a.cell(i, j));
            }
        }
    }
    assert(bs[0] == flagged_at(b, r, c));
    assert(bs[1] == unflagged_at(b, r, c));
}

/// Revealing cells one after the other keeps the values, and loses exactly when
/// the game was lost already or one of the cells is a mine.
pub proof fn lemma_reveal_all_loses_iff_mine(b: Board, list: Seq<(int, int)>)
    requires
        b.shaped(),
        consistent(b),
        forall|k: int| 0 <= k < list.len() ==> b.in_bounds(#[trigger] list[k].0, list[k].1),
    ensures
        reveal_all(b, list).shaped(),
        crate::grid::same_values(b, reveal_all(b, list)),
        consistent(reveal_all(b, list)),
        is_lost(reveal_all(b, list)) == (is_lost(b) || exists|k: int|
            #![trigger list[k]]
            0 <= k < list.len() && b.cell(list[k].0, list[k].1).value == CellValue::Mine),
    decreases list.len(),
{
    if list.len() > 0 {
        let rest = list.drop_last();
        assert forall|k: int| 0 <= k < rest.len() implies b.in_bounds(#[trigger] rest[k].0, rest[k].1) by {
            assert(rest[k] == list[k]);
        }
        lemma_reveal_all_loses_iff_mine(b, rest);
        let before = reveal_all(b, rest);
        let last = list[list.len() - 1];
        assert(b.in_bounds(last.0, last.1));
        lemma_reveal_keeps_shape(before, last.0, last.1);
        lemma_reveal_loses_iff_mine(before, last.0, last.1);
        let after = reveal_all(b, list);
        crate::grid::lemma_same_values_consistent(before, after);
        assert(before.cell(last.0, last.1).value == b.cell(last.0, last.1).value);
        assert(crate::grid::same_values(b, after)) by {
            assert forall|i: int, j: int| b.in_bounds(i, j) implies (#[trigger] b.cell(i, j)).value == after.cell(i, j).value by {
                assert(before.cell(i, j).value == b.cell(i, j).value);
            }
        }
        let found = exists|k: int| #![trigger list[k]] 0 <= k < list.len() && b.cell(list[k].0, list[k].1).value == CellValue::Mine;
        let found_rest = exists|k: int| #![trigger rest[k]] 0 <= k < rest.len() && b.cell(rest[k].0, rest[k].1).value == CellValue::Mine;
        if found_rest {
            let k = choose|k: int| #![trigger rest[k]] 0 <= k < rest.len() && b.cell(rest[k].0, rest[k].1).value == CellValue::Mine;
            assert(list[k] == rest[k]);
        }
        if found {
            let k = choose|k: int| #![trigger list[k]] 0 <= k < list.len() && b.cell(list[k].0, list[k].1).value == CellValue::Mine;
            if k < rest.len() {
                assert(list[k] == rest[k]);
            }
        }
    }
}

/// Filtering by `p` counts those that pass `q`, which implies `p`, and those
/// that pass `p` but not `q`.
proof fn lemma_filter_split<A>(s: Seq<A>, p: spec_fn(A) -> bool, q: spec_fn(A) -> bool, rest: spec_fn(A) -> bool)
    requires
        forall|x: A| #[trigger] q(x) ==> p(x),
        forall|x: A| #[trigger] rest(x) == (p(x) && !q(x)),
    ensures
        s.filter(p).len() == s.filter(q).len() + s.filter(rest).len(),
    decreases s.len(),
{
    reveal(Seq::filter);
    if s.len() > 0 {
        lemma_filter_split(s.drop_last(), p, q, rest);
    }
}

/// When every flag around a `Value(n)` cell with `n` flagged neighbours is on a
/// mine, `auto_reveal` there does not lose the game.
pub proof fn lemma_auto_reveal_with_true_flags_is_safe(b: Board, r: int, c: int)
    requires
        b.shaped(),
        consistent(b),
        b.in_bounds(r, c),
        !is_lost(b),
        auto_reveal_applies(b, r, c),
        forall|k: int|
            0 <= k < neighbors_in_state(b, r, c, CellState::Flagged).len() ==> b.cell(
                #[trigger] neighbors_in_state(b, r, c, CellState::Flagged)[k].0,
                neighbors_in_state(b, r, c, CellState::Flagged)[k].1,
            ).value == CellValue::Mine,
    ensures
        !is_lost(reveal_all(b, neighbors_in_state(b, r, c, CellState::Unflagged))),
{
    let s = neighbor_seq(b.rows, b.cols, r, c);
    let flagged = neighbors_in_state(b, r, c, CellState::Flagged);
    let unflagged = neighbors_in_state(b, r, c, CellState::Unflagged);
    let flagged_pred = state_test(b, CellState::Flagged, true);
    let flagged_mine = |p: (int, int)| flagged_pred(p) && mine_at(b)(p);
    let other_mine = |p: (int, int)| mine_at(b)(p) && !flagged_mine(p);
    lemma_neighbor_seq(b.rows, b.cols, r, c);
    lemma_filter_members(s, flagged_pred);
    lemma_filter_members(s, state_test(b, CellState::Unflagged, true));
    lemma_filter_members(s, other_mine);
    assert forall|i: int| 0 <= i < s.len() implies flagged_pred(#[trigger] s[i]) == flagged_mine(s[i]) by {
        if flagged_pred(s[i]) {
            assert(flagged.contains(s[i]));
            let k = choose|k: int| 0 <= k < flagged.len() && flagged[k] == s[i];
            assert(b.cell(flagged[k].0, flagged[k].1).value == CellValue::Mine);
        }
    }
    crate::grid::lemma_filter_agree(s, flagged_pred, flagged_mine);
    lemma_filter_split(s, mine_at(b), flagged_mine, other_mine);
    assert(b.cells[r][c] == b.cell(r, c));
    assert(s.filter(other_mine).len() == 0);
    assert forall|k: int| 0 <= k < unflagged.len() implies b.in_bounds(#[trigger] unflagged[k].0, unflagged[k].1) by {
        assert(s.contains(unflagged[k]));
    }
    lemma_reveal_all_loses_iff_mine(b, unflagged);
    if exists|k: int| #![trigger unflagged[k]] 0 <= k < unflagged.len() && b.cell(unflagged[k].0, unflagged[k].1).value == CellValue::Mine {
        let k = choose|k: int| #![trigger unflagged[k]] 0 <= k < unflagged.len() && b.cell(unflagged[k].0, unflagged[k].1).value == CellValue::Mine;
        let p = unflagged[k];
        assert(unflagged.contains(p));
        assert(s.contains(p) && state_test(b, CellState::Unflagged, true)(p));
        assert(other_mine(p));
        assert(s.filter(other_mine).contains(p));
    }
}

/// The swap of row and column.
pub open spec fn transposed(p: (int, int)) -> (int, int) {
    (p.1, p.0)
}

/// A cell has as many mines around it as its mirror image has on the board
/// whose mines are mirrored along the diagonal.
proof fn lemma_transposed_mine_count(b1: Board, b2: Board, r: int, c: int)
    requires
        b1.shaped(),
        b2.shaped(),
        b2.rows == b1.cols,
        b2.cols == b1.rows,
        forall|i: int, j: int|
            b1.in_bounds(i, j) ==> ((#[trigger] b1.cells[i][j]).value == CellValue::Mine) == (b2.cells[j][i].value
                == CellValue::Mine),
        b1.in_bounds(r, c),
    ensures
        mine_count(b1, r, c) == mine_count(b2, c, r),
{
    broadcast use vstd::seq_lib::seq_to_set_is_finite;
    let s1 = neighbor_seq(b1.rows, b1.cols, r, c);
    let s2 = neighbor_seq(b2.rows, b2.cols, c, r);
    lemma_neighbor_seq(b1.rows, b1.cols, r, c);
    lemma_neighbor_seq(b2.rows, b2.cols, c, r);
    let f1 = s1.filter(mine_at(b1));
    let f2 = s2.filter(mine_at(b2));
    lemma_filter_members(s1, mine_at(b1));
    lemma_filter_members(s2, mine_at(b2));
    crate::grid::lemma_filter_no_duplicates(s1, mine_at(b1));
    crate::grid::lemma_filter_no_duplicates(s2, mine_at(b2));
    f1.unique_seq_to_set();
    f2.unique_seq_to_set();
    let a = f1.to_set();
    let b = f2.to_set();
    assert forall|q: (int, int)| #[trigger] b.contains(q) <==> a.map(|p: (int, int)| transposed(p)).contains(q) by {
        let p = transposed(q);
        assert(transposed(p) == q);
        if b.contains(q) {
            assert(f2.contains(q));
            let k = choose|k: int| 0 <= k < s2.len() && s2[k] == q;
            assert(inside(b2.rows, b2.cols, s2[k]) && adjacent(s2[k], (c, r)));
            assert(b2.cells[q.0][q.1] == b2.cell(q.0, q.1));
            assert(b1.cells[p.0][p.1] == b1.cell(p.0, p.1));
            assert(s1.contains(p));
            assert(f1.contains(p));
            assert(a.contains(p));
        }
        if a.map(|p: (int, int)| transposed(p)).contains(q) {
            let p2 = choose|p2: (int, int)| a.contains(p2) && transposed(p2) == q;
            assert(p2 == p);
            assert(f1.contains(p));
            let k = choose|k: int| 0 <= k < s1.len() && s1[k] == p;
            assert(inside(b1.rows, b1.cols, s1[k]) && adjacent(s1[k], (r, c)));
            assert(b1.cells[p.0][p.1] == b1.cell(p.0, p.1));
            assert(b2.cells[q.0][q.1] == b2.cell(q.0, q.1));
            assert(s2.contains(q));
            assert(f2.contains(q));
        }
    }
    assert(a.map(|p: (int, int)| transposed(p)) =~= b);
    lemma_map_size(a, b, |p: (int, int)| transposed(p));
}

/// Transposing where the mines are transposes what every cell holds: the
/// fields that `new_from_bool_matrix` builds from a matrix and from its
/// transpose hold the same value at `(r, c)` and at `(c, r)`.
pub proof fn lemma_transposed_values(b1: Board, b2: Board)
    requires
        b1.shaped(),
        b2.shaped(),
        consistent(b1),
        consistent(b2),
        b2.rows == b1.cols,
        b2.cols == b1.rows,
        forall|i: int, j: int|
            b1.in_bounds(i, j) ==> ((#[trigger] b1.cells[i][j]).value == CellValue::Mine) == (b2.cells[j][i].value
                == CellValue::Mine),
    ensures
        forall|i: int, j: int| b1.in_bounds(i, j) ==> (#[trigger] b1.cells[i][j]).value == b2.cells[j][i].value,
{
    assert forall|i: int, j: int| b1.in_bounds(i, j) implies (#[trigger] b1.cells[i][j]).value == b2.cells[j][i].value by {
        lemma_transposed_mine_count(b1, b2, i, j);
        assert(b2.in_bounds(j, i));
        assert(b2.cells[j][i] == b2.cell(j, i));
        assert(b1.cells[i][j] == b1.cell(i, j));
    }
}

/// The in-bounds neighbours of `(r, c)` that pass `pred`.
pub open spec fn around_where(b: Board, r: int, c: int, pred: spec_fn((int, int)) -> bool) -> Set<(int, int)> {
    Set::new(|p: (int, int)| b.in_bounds(p.0, p.1) && adjacent(p, (r, c)) && pred(p))
}

/// The neighbours of `(r, c)` that are not revealed, flagged ones included.
pub open spec fn hidden_around(b: Board, r: int, c: int) -> Set<(int, int)> {
    Set::new(|p: (int, int)| b.in_bounds(p.0, p.1) && adjacent(p, (r, c)) && b.cell(p.0, p.1).state != CellState::Revealed)
}

/// The neighbours of `(r, c)` that are flagged.
pub open spec fn flags_around(b: Board, r: int, c: int) -> Set<(int, int)> {
    Set::new(|p: (int, int)| b.in_bounds(p.0, p.1) && adjacent(p, (r, c)) && b.cell(p.0, p.1).state == CellState::Flagged)
}

/// Counting the neighbours in the neighbour sequence that pass `pred` counts
/// the set of such neighbours.
proof fn lemma_filter_counts_around(b: Board, r: int, c: int, pred: spec_fn((int, int)) -> bool)
    ensures
        neighbor_seq(b.rows, b.cols, r, c).filter(pred).len() == around_where(b, r, c, pred).len(),
{
    let s = neighbor_seq(b.rows, b.cols, r, c);
    let f = s.filter(pred);
    lemma_neighbor_seq(b.rows, b.cols, r, c);
    lemma_filter_members(s, pred);
    crate::grid::lemma_filter_no_duplicates(s, pred);
    f.unique_seq_to_set();
    assert forall|p: (int, int)| #[trigger] f.to_set().contains(p) <==> around_where(b, r, c, pred).contains(p) by {
        if f.contains(p) {
            let k = choose|k: int| 0 <= k < s.len() && s[k] == p;
            assert(inside(b.rows, b.cols, s[k]) && adjacent(s[k], (r, c)));
        }
        if around_where(b, r, c, pred).contains(p) {
            assert(s.contains(p));
        }
    }
    assert(f.to_set() =~= around_where(b, r, c, pred));
}

/// `auto_flag` changes the board only when the cell's count equals the number of
/// its neighbours that are not revealed, flagged ones included.
pub proof fn lemma_auto_flag_needs_exact_count(b: Board, r: int, c: int)
    requires
        b.shaped(),
        b.in_bounds(r, c),
    ensures
        (if auto_flag_applies(b, r, c) { flagged_around(b, r, c) } else { b }) != b ==> b.cell(r, c).value
            == CellValue::Value(hidden_around(b, r, c).len() as usize),
{
    let pred = state_test(b, CellState::Revealed, false);
    lemma_filter_counts_around(b, r, c, pred);
    assert(around_where(b, r, c, pred) =~= hidden_around(b, r, c));
}

/// On a consistent board where no mine is revealed, every cell that
/// `auto_flag` newly flags holds a mine.
pub proof fn lemma_auto_flag_flags_only_mines(b: Board, r: int, c: int)
    requires
        b.shaped(),
        consistent(b),
        !is_lost(b),
        b.in_bounds(r, c),
    ensures
        forall|i: int, j: int|
            #![trigger b.cells[i][j]]
            b.in_bounds(i, j) && (if auto_flag_applies(b, r, c) { flagged_around(b, r, c) } else { b }).cells[i][j].state
                == CellState::Flagged && b.cell(i, j).state != CellState::Flagged ==> b.cell(i, j).value
                == CellValue::Mine,
{
    if auto_flag_applies(b, r, c) {
        let a = flagged_around(b, r, c);
        let s = neighbor_seq(b.rows, b.cols, r, c);
        let hidden = state_test(b, CellState::Revealed, false);
        let hidden_mine = |p: (int, int)| mine_at(b)(p) && hidden(p);
        let hidden_safe = |p: (int, int)| hidden(p) && !hidden_mine(p);
        lemma_neighbor_seq(b.rows, b.cols, r, c);
        assert forall|k: int| 0 <= k < s.len() implies mine_at(b)(#[trigger] s[k]) == hidden_mine(s[k]) by {
            assert(b.in_bounds(s[k].0, s[k].1));
            if mine_at(b)(s[k]) && !hidden(s[k]) {
                assert(b.cells[s[k].0][s[k].1] == b.cell(s[k].0, s[k].1));
            }
        }
        crate::grid::lemma_filter_agree(s, mine_at(b), hidden_mine);
        lemma_filter_split(s, hidden, hidden_mine, hidden_safe);
        assert(b.cells[r][c] == b.cell(r, c));
        assert(s.filter(hidden_safe).len() == 0);
        lemma_filter_members(s, hidden_safe);
        assert forall|i: int, j: int|
            #![trigger b.cells[i][j]]
            b.in_bounds(i, j) && a.cells[i][j].state == CellState::Flagged && b.cell(i, j).state
                != CellState::Flagged implies b.cell(i, j).value == CellValue::Mine by {
            assert(adjacent((i, j), (r, c)));
            assert(adjacent((i, j), (r, c)) ==> adjacent((r, c), (i, j)));
            assert(s.contains((i, j)));
            if b.cell(i, j).value != CellValue::Mine {
                assert(hidden_safe((i, j)));
                assert(s.filter(hidden_safe).contains((i, j)));
            }
        }
    }
}

/// `auto_reveal` changes the board only when the cell's count equals the number
/// of its flagged neighbours.
pub proof fn lemma_auto_reveal_needs_exact_count(b: Board, r: int, c: int)
    requires
        b.shaped(),
        b.in_bounds(r, c),
    ensures
        (if auto_reveal_applies(b, r, c) {
            reveal_all(b, neighbors_in_state(b, r, c, CellState::Unflagged))
        } else {
            b
        }) != b ==> b.cell(r, c).value == CellValue::Value(flags_around(b, r, c).len() as usize),
{
    let pred = state_test(b, CellState::Flagged, true);
    lemma_filter_counts_around(b, r, c, pred);
    assert(around_where(b, r, c, pred) =~= flags_around(b, r, c));
}

/// Two rows whose elements agree on `p`, place by place, keep as many.
proof fn lemma_row_filter_agree<A>(a: Seq<A>, b: Seq<A>, p: spec_fn(A) -> bool)
    requires
        a.len() == b.len(),
        forall|i: int| 0 <= i < a.len() ==> p(#[trigger] a[i]) == p(b[i]),
    ensures
        a.filter(p).len() == b.filter(p).len(),
    decreases a.len(),
{
    reveal(Seq::filter);
    if a.len() > 0 {
        assert forall|i: int| 0 <= i < a.len() - 1 implies p(#[trigger] a.drop_last()[i]) == p(b.drop_last()[i]) by {
            assert(a.drop_last()[i] == a[i]);
            assert(b.drop_last()[i] == b[i]);
        }
        lemma_row_filter_agree(a.drop_last(), b.drop_last(), p);
        assert(a.last() == a[a.len() - 1]);
        assert(b.last() == b[b.len() - 1]);
    }
}

/// Two grids of one shape whose cells agree on `p`, place by place, keep as many
/// cells when flattened and filtered.
proof fn lemma_grid_filter_agree<A>(s1: Seq<Seq<A>>, s2: Seq<Seq<A>>, p: spec_fn(A) -> bool)
    requires
        s1.len() == s2.len(),
        forall|i: int| 0 <= i < s1.len() ==> (#[trigger] s1[i]).len() == s2[i].len(),
        forall|i: int, j: int| 0 <= i < s1.len() && 0 <= j < s1[i].len() ==> p(#[trigger] s1[i][j]) == p(s2[i][j]),
    ensures
        s1.flatten().filter(p).len() == s2.flatten().filter(p).len(),
    decreases s1.len(),
{
    if s1.len() > 0 {
        let r1 = s1.drop_first();
        let r2 = s2.drop_first();
        assert forall|i: int| 0 <= i < r1.len() implies (#[trigger] r1[i]).len() == r2[i].len() by {
            assert(r1[i] == s1[i + 1] && r2[i] == s2[i + 1]);
        }
        assert forall|i: int, j: int| 0 <= i < r1.len() && 0 <= j < r1[i].len() implies p(#[trigger] r1[i][j]) == p(r2[i][j]) by {
            assert(r1[i] == s1[i + 1] && r2[i] == s2[i + 1]);
        }
        lemma_grid_filter_agree(r1, r2, p);
        assert forall|j: int| 0 <= j < s1[0].len() implies p(#[trigger] s1[0][j]) == p(s2[0][j]) by {}
        lemma_row_filter_agree(s1[0], s2[0], p);
        Seq::filter_distributes_over_add(s1[0], r1.flatten(), p);
        Seq::filter_distributes_over_add(s2[0], r2.flatten(), p);
        assert(s1.flatten() == s1[0] + r1.flatten());
        assert(s2.flatten() == s2[0] + r2.flatten());
    }
}

/// The number of flagged mines on a board: what `Game::flagged_mines` returns.
pub open spec fn flagged_mine_count(b: Board) -> nat {
    b.cells.flatten().filter(flagged_mine()).len()
}

/// Flagging or unflagging a cell that is not a mine leaves the number of
/// flagged mines unchanged.
pub proof fn lemma_safe_flags_do_not_count(b: Board, r: int, c: int)
    requires
        b.shaped(),
        b.in_bounds(r, c),
        b.cell(r, c).value != CellValue::Mine,
    ensures
        flagged_mine_count(flagged_at(b, r, c)) == flagged_mine_count(b),
        flagged_mine_count(unflagged_at(b, r, c)) == flagged_mine_count(b),
{
    b.lemma_with_state(r, c, CellState::Flagged);
    b.lemma_with_state(r, c, CellState::Unflagged);
    let bs = seq![flagged_at(b, r, c), unflagged_at(b, r, c)];
    assert forall|k: int| 0 <= k < 2 implies flagged_mine_count(#[trigger] bs[k]) == flagged_mine_count(b) by {
        let a = bs[k];
        assert forall|i: int, j: int| 0 <= i < a.cells.len() && 0 <= j < a.cells[i].len() implies flagged_mine()(
            #[trigger] a.cells[i][j],
        ) == flagged_mine()(b.cells[i][j]) by {
            assert(a.cells[i][j] == a.cell(i, j));
            assert(b.cells[i][j] == b.cell(i, j));
        }
        lemma_grid_filter_agree(a.cells, b.cells, flagged_mine());
    }
    assert(bs[0] == flagged_at(b, r, c));
    assert(bs[1] == unflagged_at(b, r, c));
}

/// Two rows that agree on `p` except at `j`, which only the second passes:
/// the second keeps one more.
proof fn lemma_row_filter_one_more<A>(a: Seq<A>, b: Seq<A>, p: spec_fn(A) -> bool, j: int)
    requires
        a.len() == b.len(),
        0 <= j < a.len(),
        forall|i: int| 0 <= i < a.len() && i != j ==> p(#[trigger] a[i]) == p(b[i]),
        !p(a[j]),
        p(b[j]),
    ensures
        b.filter(p).len() == a.filter(p).len() + 1,
    decreases a.len(),
{
    reveal(Seq::filter);
    let a0 = a.drop_last();
    let b0 = b.drop_last();
    assert(a.last() == a[a.len() - 1]);
    assert(b.last() == b[b.len() - 1]);
    if j == a.len() - 1 {
        assert forall|i: int| 0 <= i < a0.len() implies p(#[trigger] a0[i]) == p(b0[i]) by {
            assert(a0[i] == a[i] && b0[i] == b[i]);
        }
        lemma_row_filter_agree(a0, b0, p);
    } else {
        assert forall|i: int| 0 <= i < a0.len() && i != j implies p(#[trigger] a0[i]) == p(b0[i]) by {
            assert(a0[i] == a[i] && b0[i] == b[i]);
        }
        assert(a0[j] == a[j] && b0[j] == b[j]);
        lemma_row_filter_one_more(a0, b0, p, j);
    }
}

/// Two grids of one shape that agree on `p` except at `(r, j)`, which only the
/// second passes: the second keeps one more cell when flattened and filtered.
proof fn lemma_grid_filter_one_more<A>(s1: Seq<Seq<A>>, s2: Seq<Seq<A>>, p: spec_fn(A) -> bool, r: int, j: int)
    requires
        s1.len() == s2.len(),
        forall|i: int| 0 <= i < s1.len() ==> (#[trigger] s1[i]).len() == s2[i].len(),
        0 <= r < s1.len(),
        0 <= j < s1[r].len(),
        forall|i: int, k: int|
            0 <= i < s1.len() && 0 <= k < s1[i].len() && (i != r || k != j) ==> p(#[trigger] s1[i][k]) == p(s2[i][k]),
        !p(s1[r][j]),
        p(s2[r][j]),
    ensures
        s2.flatten().filter(p).len() == s1.flatten().filter(p).len() + 1,
    decreases s1.len(),
{
    let r1 = s1.drop_first();
    let r2 = s2.drop_first();
    assert forall|i: int| 0 <= i < r1.len() implies (#[trigger] r1[i]).len() == r2[i].len() by {
        assert(r1[i] == s1[i + 1] && r2[i] == s2[i + 1]);
    }
    Seq::filter_distributes_over_add(s1[0], r1.flatten(), p);
    Seq::filter_distributes_over_add(s2[0], r2.flatten(), p);
    assert(s1.flatten() == s1[0] + r1.flatten());
    assert(s2.flatten() == s2[0] + r2.flatten());
    if r == 0 {
        assert forall|k: int| 0 <= k < s1[0].len() && k != j implies p(#[trigger] s1[0][k]) == p(s2[0][k]) by {}
        lemma_row_filter_one_more(s1[0], s2[0], p, j);
        assert forall|i: int, k: int| 0 <= i < r1.len() && 0 <= k < r1[i].len() implies p(#[trigger] r1[i][k]) == p(r2[i][k]) by {
            assert(r1[i] == s1[i + 1] && r2[i] == s2[i + 1]);
        }
        lemma_grid_filter_agree(r1, r2, p);
    } else {
        assert forall|k: int| 0 <= k < s1[0].len() implies p(#[trigger] s1[0][k]) == p(s2[0][k]) by {}
        lemma_row_filter_agree(s1[0], s2[0], p);
        assert forall|i: int, k: int|
            0 <= i < r1.len() && 0 <= k < r1[i].len() && (i != r - 1 || k != j) implies p(#[trigger] r1[i][k]) == p(r2[i][k]) by {
            assert(r1[i] == s1[i + 1] && r2[i] == s2[i + 1]);
        }
        assert(r1[r - 1] == s1[r] && r2[r - 1] == s2[r]);
        lemma_grid_filter_one_more(r1, r2, p, r - 1, j);
    }
}

/// Flagging an unflagged mine adds one to the number of flagged mines.
pub proof fn lemma_flagging_a_mine_counts_it(b: Board, r: int, c: int)
    requires
        b.shaped(),
        b.in_bounds(r, c),
        b.cell(r, c).value == CellValue::Mine,
        b.cell(r, c).state == CellState::Unflagged,
    ensures
        flagged_mine_count(flagged_at(b, r, c)) == flagged_mine_count(b) + 1,
{
    b.lemma_with_state(r, c, CellState::Flagged);
    let a = flagged_at(b, r, c);
    assert forall|i: int, k: int|
        0 <= i < b.cells.len() && 0 <= k < b.cells[i].len() && (i != r || k != c) implies flagged_mine()(
        #[trigger] b.cells[i][k],
    ) == flagged_mine()(a.cells[i][k]) by {
        assert(a.cells[i][k] == a.cell(i, k));
        assert(b.cells[i][k] == b.cell(i, k));
    }
    assert(a.cells[r][c] == a.cell(r, c));
    assert(b.cells[r][c] == b.cell(r, c));
    lemma_grid_filter_one_more(b.cells, a.cells, flagged_mine(), r, c);
}

/// Seen as a predicate on cells: a mine.
pub open spec fn mine_cell() -> spec_fn(Cell) -> bool {
    |cell: Cell| cell.value == CellValue::Mine
}

/// There are never more flagged mines than mines.
pub proof fn lemma_flagged_mines_at_most_mines(b: Board)
    ensures
        flagged_mine_count(b) <= b.cells.flatten().filter(mine_cell()).len(),
{
    let mine_not_flagged = |cell: Cell| mine_cell()(cell) && !flagged_mine()(cell);
    lemma_filter_split(b.cells.flatten(), mine_cell(), flagged_mine(), mine_not_flagged);
}

/// Being neighbours is symmetric: each cell lists the other among its neighbours.
pub proof fn lemma_neighbors_symmetric(rows: int, cols: int, p: (int, int), q: (int, int))
    requires
        inside(rows, cols, p),
        inside(rows, cols, q),
    ensures
        neighbor_seq(rows, cols, p.0, p.1).contains(q) == neighbor_seq(rows, cols, q.0, q.1).contains(p),
{
    lemma_neighbor_seq(rows, cols, p.0, p.1);
    lemma_neighbor_seq(rows, cols, q.0, q.1);
    if neighbor_seq(rows, cols, p.0, p.1).contains(q) {
        let k = choose|k: int| 0 <= k < neighbor_seq(rows, cols, p.0, p.1).len() && neighbor_seq(rows, cols, p.0, p.1)[k] == q;
        assert(adjacent(neighbor_seq(rows, cols, p.0, p.1)[k], p));
    }
    if neighbor_seq(rows, cols, q.0, q.1).contains(p) {
        let k = choose|k: int| 0 <= k < neighbor_seq(rows, cols, q.0, q.1).len() && neighbor_seq(rows, cols, q.0, q.1)[k] == p;
        assert(adjacent(neighbor_seq(rows, cols, q.0, q.1)[k], q));
    }
}

} // verus!
