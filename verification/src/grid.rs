use vstd::prelude::*;
use crate::field::{Board, CellValue, CellState};

verus! {

/// Two distinct cells that touch, also diagonally.
pub open spec fn adjacent(p: (int, int), q: (int, int)) -> bool {
    &&& p != q
    &&& -1 <= p.0 - q.0 <= 1
    &&& -1 <= p.1 - q.1 <= 1
}

/// The eight directions around a cell, in row-major order.
pub open spec fn offset(k: int) -> (int, int) {
    if k == 0 {
        (-1, -1)
    } else if k == 1 {
        (-1, 0)
    } else if k == 2 {
        (-1, 1)
    } else if k == 3 {
        (0, -1)
    } else if k == 4 {
        (0, 1)
    } else if k == 5 {
        (1, -1)
    } else if k == 6 {
        (1, 0)
    } else {
        (1, 1)
    }
}

pub open spec fn shifted(r: int, c: int, k: int) -> (int, int) {
    (r + offset(k).0, c + offset(k).1)
}

pub open spec fn inside(rows: int, cols: int, p: (int, int)) -> bool {
    0 <= p.0 < rows && 0 <= p.1 < cols
}

/// The in-bounds cells among the first `k` directions around `(r, c)`, in order.
pub open spec fn neighbors_upto(rows: int, cols: int, r: int, c: int, k: nat) -> Seq<(int, int)>
    decreases k,
{
    if k == 0 {
        Seq::empty()
    } else {
        let prev = neighbors_upto(rows, cols, r, c, (k - 1) as nat);
        let p = shifted(r, c, k - 1);
        if inside(rows, cols, p) {
            prev.push(p)
        } else {
            prev
        }
    }
}

/// The neighbors of `(r, c)` inside a `rows` x `cols` field, in row-major order.
pub open spec fn neighbor_seq(rows: int, cols: int, r: int, c: int) -> Seq<(int, int)> {
    neighbors_upto(rows, cols, r, c, 8)
}

pub open spec fn lex_lt(p: (int, int), q: (int, int)) -> bool {
    p.0 < q.0 || (p.0 == q.0 && p.1 < q.1)
}

proof fn lemma_neighbors_upto(rows: int, cols: int, r: int, c: int, k: nat)
    requires
        k <= 8,
    ensures
        ({
            let s = neighbors_upto(rows, cols, r, c, k);
            &&& s.len() <= k
            &&& forall|i: int|
                0 <= i < s.len() ==> inside(rows, cols, #[trigger] s[i]) && adjacent(
                    s[i],
                    (r, c),
                )
            &&& forall|i: int| 0 <= i < s.len() && k < 8 ==> lex_lt(#[trigger] s[i], shifted(r, c, k as int))
            &&& forall|i: int, j: int| 0 <= i < j < s.len() ==> lex_lt(#[trigger] s[i], #[trigger] s[j])
            &&& forall|j: int|
                0 <= j < k && inside(rows, cols, shifted(r, c, j)) ==> s.contains(
                    #[trigger] shifted(r, c, j),
                )
        }),
    decreases k,
{
    if k > 0 {
        lemma_neighbors_upto(rows, cols, r, c, (k - 1) as nat);
        let prev = neighbors_upto(rows, cols, r, c, (k - 1) as nat);
        let s = neighbors_upto(rows, cols, r, c, k);
        let p = shifted(r, c, k - 1);
        if inside(rows, cols, p) {
            assert(s[s.len() - 1] == p);
            assert forall|j: int|
                0 <= j < k && inside(rows, cols, shifted(r, c, j)) implies s.contains(
                #[trigger] shifted(r, c, j),
            ) by {
                if j < k - 1 {
                    let i = choose|i: int| 0 <= i < prev.len() && prev[i] == shifted(r, c, j);
                    assert(s[i] == prev[i]);
                }
            }
        }
    }
}

/// The neighbor sequence lists exactly the adjacent in-bounds cells, each once,
/// in row-major order.
pub proof fn lemma_neighbor_seq(rows: int, cols: int, r: int, c: int)
    ensures
        ({
            let s = neighbor_seq(rows, cols, r, c);
            &&& s.len() <= 8
            &&& forall|i: int|
                0 <= i < s.len() ==> inside(rows, cols, #[trigger] s[i]) && adjacent(
                    s[i],
                    (r, c),
                )
            &&& forall|i: int, j: int| 0 <= i < j < s.len() ==> lex_lt(#[trigger] s[i], #[trigger] s[j])
            &&& s.no_duplicates()
            &&& forall|p: (int, int)| inside(rows, cols, p) && adjacent(p, (r, c)) ==> #[trigger] s.contains(p)
        }),
{
    lemma_neighbors_upto(rows, cols, r, c, 8);
    let s = neighbor_seq(rows, cols, r, c);
    assert forall|p: (int, int)| inside(rows, cols, p) && adjacent(p, (r, c)) implies #[trigger] s.contains(p) by {
        let k: int = if p.0 == r - 1 {
            if p.1 == c - 1 { 0 } else if p.1 == c { 1 } else { 2 }
        } else if p.0 == r {
            if p.1 == c - 1 { 3 } else { 4 }
        } else {
            if p.1 == c - 1 { 5 } else if p.1 == c { 6 } else { 7 }
        };
        assert(shifted(r, c, k) == p);
    }
    assert forall|i: int, j: int| 0 <= i < s.len() && 0 <= j < s.len() && i != j implies s[i] != s[j] by {
        if i < j {
            assert(lex_lt(s[i], s[j]));
        } else {
            assert(lex_lt(s[j], s[i]));
        }
    }
}

/// Seen as a predicate on positions: the cell there holds a mine.
pub open spec fn mine_at(b: Board) -> spec_fn((int, int)) -> bool {
    |p: (int, int)| b.cell(p.0, p.1).value == CellValue::Mine
}

/// Seen as a predicate on positions: the cell there is in state `s`.
pub open spec fn state_is(b: Board, s: CellState) -> spec_fn((int, int)) -> bool {
    |p: (int, int)| b.cell(p.0, p.1).state == s
}

/// Seen as a predicate on positions: the cell there is not revealed.
pub open spec fn hidden_at(b: Board) -> spec_fn((int, int)) -> bool {
    |p: (int, int)| b.cell(p.0, p.1).state != CellState::Revealed
}

/// The number of mines around `(r, c)`.
pub open spec fn mine_count(b: Board, r: int, c: int) -> nat {
    neighbor_seq(b.rows, b.cols, r, c).filter(mine_at(b)).len()
}

/// Every cell that is not a mine holds the number of mines around it.
pub open spec fn consistent(b: Board) -> bool {
    forall|r: int, c: int|
        #![trigger b.cells[r][c]]
        b.in_bounds(r, c) ==> match b.cell(r, c).value {
            CellValue::Mine => true,
            CellValue::Value(n) => n == mine_count(b, r, c),
        }
}


/// Filtering by two predicates that agree on every element gives the same result.
pub proof fn lemma_filter_agree<A>(s: Seq<A>, p1: spec_fn(A) -> bool, p2: spec_fn(A) -> bool)
    requires
        forall|i: int| 0 <= i < s.len() ==> p1(#[trigger] s[i]) == p2(s[i]),
    ensures
        s.filter(p1) == s.filter(p2),
    decreases s.len(),
{
    reveal(Seq::filter);
    if s.len() > 0 {
        lemma_filter_agree(s.drop_last(), p1, p2);
    }
}

/// Filtering one element longer a prefix adds that element exactly when it passes.
pub proof fn lemma_filter_take_step<A>(s: Seq<A>, p: spec_fn(A) -> bool, k: int)
    requires
        0 <= k < s.len(),
    ensures
        s.take(k + 1).filter(p) == if p(s[k]) {
            s.take(k).filter(p).push(s[k])
        } else {
            s.take(k).filter(p)
        },
{
    reveal(Seq::filter);
    assert(s.take(k + 1).drop_last() =~= s.take(k));
}

/// Two boards of one size whose cells hold the same values.
pub open spec fn same_values(b1: Board, b2: Board) -> bool {
    &&& b1.rows == b2.rows
    &&& b1.cols == b2.cols
    &&& forall|r: int, c: int|
        b1.in_bounds(r, c) ==> (#[trigger] b1.cell(r, c)).value == b2.cell(r, c).value
}

/// Mine counts, and so consistency, depend on the values of the cells alone.
pub proof fn lemma_same_values_consistent(b1: Board, b2: Board)
    requires
        same_values(b1, b2),
    ensures
        forall|r: int, c: int| b1.in_bounds(r, c) ==> #[trigger] mine_count(b1, r, c) == mine_count(b2, r, c),
        b1.shaped() && b2.shaped() ==> consistent(b1) == consistent(b2),
{
    assert forall|r: int, c: int| b1.in_bounds(r, c) implies #[trigger] mine_count(b1, r, c) == mine_count(b2, r, c) by {
        lemma_neighbor_seq(b1.rows, b1.cols, r, c);
        let s = neighbor_seq(b1.rows, b1.cols, r, c);
        assert forall|i: int| 0 <= i < s.len() implies mine_at(b1)(#[trigger] s[i]) == mine_at(b2)(s[i]) by {
            assert(b1.in_bounds(s[i].0, s[i].1));
            assert(b1.cell(s[i].0, s[i].1).value == b2.cell(s[i].0, s[i].1).value);
        }
        lemma_filter_agree(s, mine_at(b1), mine_at(b2));
    }
    if b1.shaped() && b2.shaped() {
        if consistent(b1) {
            assert forall|r: int, c: int| #![trigger b2.cells[r][c]] b2.in_bounds(r, c) implies match b2.cell(r, c).value {
                CellValue::Mine => true,
                CellValue::Value(n) => n == mine_count(b2, r, c),
            } by {
                assert(b1.cell(r, c).value == b2.cell(r, c).value);
                assert(mine_count(b1, r, c) == mine_count(b2, r, c));
            }
        }
        if consistent(b2) {
            assert forall|r: int, c: int| #![trigger b1.cells[r][c]] b1.in_bounds(r, c) implies match b1.cell(r, c).value {
                CellValue::Mine => true,
                CellValue::Value(n) => n == mine_count(b1, r, c),
            } by {
                assert(b1.cell(r, c).value == b2.cell(r, c).value);
                assert(mine_count(b1, r, c) == mine_count(b2, r, c));
            }
        }
    }
}


/// Seen as a predicate on positions: the matrix is `true` there.
pub open spec fn marked_in(m: Seq<Seq<bool>>) -> spec_fn((int, int)) -> bool {
    |p: (int, int)| m[p.0][p.1]
}

/// The value that a cell of a field with mines where `m` is `true` holds.
pub open spec fn value_from_matrix(m: Seq<Seq<bool>>, rows: int, cols: int, r: int, c: int) -> CellValue {
    if m[r][c] {
        CellValue::Mine
    } else {
        CellValue::Value(neighbor_seq(rows, cols, r, c).filter(marked_in(m)).len() as usize)
    }
}

/// A board whose values are those that the matrix `m` gives is consistent.
pub proof fn lemma_matrix_consistent(b: Board, m: Seq<Seq<bool>>)
    requires
        b.shaped(),
        forall|r: int, c: int|
            b.in_bounds(r, c) ==> (#[trigger] b.cell(r, c)).value == value_from_matrix(
                m,
                b.rows,
                b.cols,
                r,
                c,
            ),
    ensures
        consistent(b),
        forall|r: int, c: int|
            b.in_bounds(r, c) ==> #[trigger] mine_count(b, r, c) == neighbor_seq(
                b.rows,
                b.cols,
                r,
                c,
            ).filter(marked_in(m)).len(),
{
    assert forall|r: int, c: int| b.in_bounds(r, c) implies #[trigger] mine_count(b, r, c)
        == neighbor_seq(b.rows, b.cols, r, c).filter(marked_in(m)).len() by {
        lemma_neighbor_seq(b.rows, b.cols, r, c);
        let s = neighbor_seq(b.rows, b.cols, r, c);
        assert forall|i: int| 0 <= i < s.len() implies mine_at(b)(#[trigger] s[i]) == marked_in(m)(
            s[i],
        ) by {
            assert(b.in_bounds(s[i].0, s[i].1));
            assert(b.cell(s[i].0, s[i].1).value == value_from_matrix(m, b.rows, b.cols, s[i].0, s[i].1));
        }
        lemma_filter_agree(s, mine_at(b), marked_in(m));
    }
    assert forall|r: int, c: int| #![trigger b.cells[r][c]] b.in_bounds(r, c) implies match b.cell(r, c).value {
        CellValue::Mine => true,
        CellValue::Value(n) => n == mine_count(b, r, c),
    } by {
        assert(b.cell(r, c).value == value_from_matrix(m, b.rows, b.cols, r, c));
        lemma_neighbor_seq(b.rows, b.cols, r, c);
        let s = neighbor_seq(b.rows, b.cols, r, c);
        s.lemma_filter_len(marked_in(m));
    }
}


/// What filtering keeps: elements of the sequence that pass, all of them.
pub proof fn lemma_filter_members<A>(s: Seq<A>, p: spec_fn(A) -> bool)
    ensures
        forall|i: int| 0 <= i < s.filter(p).len() ==> s.contains(#[trigger] s.filter(p)[i]) && p(s.filter(p)[i]),
        forall|i: int| 0 <= i < s.len() && p(#[trigger] s[i]) ==> s.filter(p).contains(s[i]),
        forall|x: A| #[trigger] s.filter(p).contains(x) <==> s.contains(x) && p(x),
    decreases s.len(),
{
    reveal(Seq::filter);
    if s.len() > 0 {
        lemma_filter_members(s.drop_last(), p);
        let t = s.drop_last().filter(p);
        let f = s.filter(p);
        assert forall|i: int| 0 <= i < f.len() implies s.contains(#[trigger] f[i]) && p(f[i]) by {
            if i < t.len() {
                assert(f[i] == t[i]);
                let j = choose|j: int| 0 <= j < s.drop_last().len() && s.drop_last()[j] == t[i];
                assert(s[j] == t[i]);
            } else {
                assert(f[i] == s.last());
                assert(s[s.len() - 1] == s.last());
            }
        }
        assert forall|i: int| 0 <= i < s.len() && p(#[trigger] s[i]) implies f.contains(s[i]) by {
            if i < s.len() - 1 {
                assert(s.drop_last()[i] == s[i]);
                assert(t.contains(s[i]));
                let j = choose|j: int| 0 <= j < t.len() && t[j] == s[i];
                assert(f[j] == t[j]);
            } else {
                assert(f[f.len() - 1] == s[i]);
            }
        }
        assert forall|x: A| #[trigger] f.contains(x) implies s.contains(x) && p(x) by {
            let j = choose|j: int| 0 <= j < f.len() && f[j] == x;
            assert(s.contains(f[j]) && p(f[j]));
        }
        assert forall|x: A| s.contains(x) && p(x) implies #[trigger] f.contains(x) by {
            let j = choose|j: int| 0 <= j < s.len() && s[j] == x;
            assert(p(s[j]));
        }
    }
}

} // verus!

verus! {

/// Filtering a sequence without duplicates gives one without duplicates.
pub proof fn lemma_filter_no_duplicates<A>(s: Seq<A>, p: spec_fn(A) -> bool)
    requires
        s.no_duplicates(),
    ensures
        s.filter(p).no_duplicates(),
    decreases s.len(),
{
    reveal(Seq::filter);
    if s.len() > 0 {
        let rest = s.drop_last();
        lemma_filter_no_duplicates(rest, p);
        lemma_filter_members(rest, p);
        if p(s.last()) {
            let f = s.filter(p);
            let t = rest.filter(p);
            assert(!rest.contains(s.last())) by {
                if rest.contains(s.last()) {
                    let k = choose|k: int| 0 <= k < rest.len() && rest[k] == s.last();
                    assert(s[k] == s[s.len() - 1]);
                }
            }
            assert forall|i: int, j: int| 0 <= i < f.len() && 0 <= j < f.len() && i != j implies f[i] != f[j] by {
                if i < t.len() && j < t.len() {
                    assert(f[i] == t[i] && f[j] == t[j]);
                } else if i < t.len() {
                    assert(t.contains(t[i]));
                } else if j < t.len() {
                    assert(t.contains(t[j]));
                }
            }
        }
    }
}

} // verus!
