use vstd::prelude::*;
use rand::seq::IndexedRandom;
use rand::SeedableRng;
use crate::field::{positions, Board, Cell, CellState, CellValue, Field};
use crate::grid::{adjacent, consistent, lex_lt};
use crate::flood::revealed_from;
use crate::play::{
    flagged_at, unflagged_at, auto_flag_applies, flagged_around, auto_reveal_applies, reveal_all,
    neighbors_in_state,
};
use crate::status::{is_lost, is_won};
use crate::laws::{lemma_no_mines_around_is_empty, lemma_reveal_loses_iff_mine};

verus! {

#[verifier::external_type_specification]
#[verifier::external_body]
pub struct ExStdRng(rand::rngs::StdRng);

#[verifier::external_type_specification]
#[verifier::external_body]
pub struct ExSysError(rand::rngs::SysError);

/// `SeedableRng::try_from_rng` for `rand::rngs::StdRng`, seeded from the
/// operating system (`rand::rngs::SysRng`). It fails, with the system's
/// error, when the operating system gives no random bytes; which outcome
/// comes, and the generator's state, rest on the machine.
#[verifier::external_body]
fn seeded_rng() -> (rng: Result<rand::rngs::StdRng, rand::rngs::SysError>) {
    rand::rngs::StdRng::try_from_rng(&mut rand::rngs::SysRng)
}

/// The operating system gave no random bytes to lay the mines with.
#[derive(Debug, Clone, Copy, PartialEq, Eq, Structural)]
pub struct NoRandomness;

/// `chosen` takes, in some order, the items of `from` at distinct positions.
pub open spec fn picked_from<T>(chosen: Seq<T>, from: Seq<T>) -> bool {
    exists|idx: Seq<int>|
        #![trigger idx.no_duplicates()]
        {
            &&& idx.len() == chosen.len()
            &&& idx.no_duplicates()
            &&& forall|i: int|
                0 <= i < idx.len() ==> 0 <= #[trigger] idx[i] < from.len() && chosen[i] == from[idx[i]]
        }
}

/// `rand::seq::IndexedRandom::sample` on the slice of `candidates`, collected:
/// `min(amount, candidates.len())` items taken at distinct positions of the
/// slice. Which positions, and their order, rest on chance.
#[verifier::external_body]
fn sample_positions(rng: &mut rand::rngs::StdRng, candidates: &Vec<(usize, usize)>, amount: usize) -> (chosen: Vec<(usize, usize)>)
    ensures
        chosen@.len() == if amount < candidates@.len() {
            amount as int
        } else {
            candidates@.len() as int
        },
        picked_from(chosen@, candidates@),
{
    candidates.as_slice().sample(rng, amount).cloned().collect()
}

/// The cell `p` lies outside the 3 x 3 square around `cursor`.
pub open spec fn far_from(p: (int, int), cursor: (int, int)) -> bool {
    p.0 - cursor.0 > 1 || cursor.0 - p.0 > 1 || p.1 - cursor.1 > 1 || cursor.1 - p.1 > 1
}

/// The cells of a `rows` x `cols` field that lie outside the 3 x 3 square around `cursor`.
pub open spec fn far_cells(rows: int, cols: int, cursor: (int, int)) -> Set<(int, int)> {
    Set::new(|p: (int, int)| 0 <= p.0 < rows && 0 <= p.1 < cols && far_from(p, cursor))
}

/// The cells of a `rows` x `cols` field that may hold a mine when the first
/// cell revealed is `(cursor_row, cursor_col)`: all but the 3 x 3 square
/// around it, in row-major order.
pub fn candidate_cells(rows: u16, cols: u16, cursor_row: u16, cursor_col: u16) -> (res: Vec<(usize, usize)>)
    ensures
        forall|i: int, j: int| 0 <= i < j < res@.len() ==> lex_lt(#[trigger] positions(res@)[i], #[trigger] positions(res@)[j]),
        positions(res@).to_set() == far_cells(rows as int, cols as int, (cursor_row as int, cursor_col as int)),
        positions(res@).no_duplicates(),
        forall|i: int| 0 <= i < res@.len() ==> (#[trigger] res@[i]).0 < rows && res@[i].1 < cols,
{
    let ghost cursor = (cursor_row as int, cursor_col as int);
    let mut res: Vec<(usize, usize)> = Vec::new();
    let mut r: u16 = 0;
    while r < rows
        invariant
            cursor == (cursor_row as int, cursor_col as int),
            r <= rows,
            forall|i: int, j: int| 0 <= i < j < res@.len() ==> lex_lt(#[trigger] positions(res@)[i], #[trigger] positions(res@)[j]),
            forall|i: int| 0 <= i < res@.len() ==> (#[trigger] positions(res@)[i]).0 < r,
            forall|i: int| 0 <= i < res@.len() ==> (#[trigger] res@[i]).0 < rows && res@[i].1 < cols,
            forall|i: int| 0 <= i < res@.len() ==> far_cells(rows as int, cols as int, cursor).contains(#[trigger] positions(res@)[i]),
            forall|p: (int, int)| #[trigger] far_cells(rows as int, cols as int, cursor).contains(p) && p.0 < r ==> positions(res@).contains(p),
        decreases rows - r,
    {
        let mut c: u16 = 0;
        while c < cols
            invariant
                cursor == (cursor_row as int, cursor_col as int),
                r < rows,
                c <= cols,
                forall|i: int, j: int| 0 <= i < j < res@.len() ==> lex_lt(#[trigger] positions(res@)[i], #[trigger] positions(res@)[j]),
                forall|i: int| 0 <= i < res@.len() ==> lex_lt(#[trigger] positions(res@)[i], (r as int, c as int)),
                forall|i: int| 0 <= i < res@.len() ==> (#[trigger] res@[i]).0 < rows && res@[i].1 < cols,
                forall|i: int| 0 <= i < res@.len() ==> far_cells(rows as int, cols as int, cursor).contains(#[trigger] positions(res@)[i]),
                forall|p: (int, int)|
                    #[trigger] far_cells(rows as int, cols as int, cursor).contains(p) && (p.0 < r || (p.0 == r && p.1 < c)) ==> positions(res@).contains(p),
            decreases cols - c,
        {
            let y_dist = if r > cursor_row { r - cursor_row } else { cursor_row - r };
            let x_dist = if c > cursor_col { c - cursor_col } else { cursor_col - c };
            assert((x_dist > 1 || y_dist > 1) == far_from((r as int, c as int), cursor));
            if x_dist > 1 || y_dist > 1 {
                let ghost before = positions(res@);
                res.push((r as usize, c as usize));
                proof {
                    let p = (r as int, c as int);
                    assert(positions(res@) =~= before.push(p));
                    assert forall|q: (int, int)|
                        #[trigger] far_cells(rows as int, cols as int, cursor).contains(q) && (q.0 < r || (q.0 == r && q.1 < c + 1)) implies positions(res@).contains(q) by {
                        if q == p {
                            assert(positions(res@)[before.len() as int] == p);
                        } else {
                            let w = choose|w: int| 0 <= w < before.len() && before[w] == q;
                            assert(positions(res@)[w] == q);
                        }
                    }
                }
            }
            c = c + 1;
        }
        r = r + 1;
    }
    proof {
        let s = positions(res@);
        assert(s.to_set() =~= far_cells(rows as int, cols as int, cursor));
        assert forall|i: int, j: int| 0 <= i < s.len() && 0 <= j < s.len() && i != j implies s[i] != s[j] by {
            if i < j {
                assert(lex_lt(s[i], s[j]));
            } else {
                assert(lex_lt(s[j], s[i]));
            }
        }
    }
    res
}

/// Where a step that lands on `moved` ends on a line whose last position is
/// `last`: before the start it wraps to the last position, after the last one
/// it wraps to the first.
pub open spec fn wrapped(moved: int, last: int) -> int {
    if moved < 0 {
        last
    } else if moved > last {
        0
    } else {
        moved
    }
}

/// A step of at most one position on a line that wraps at both ends lands on
/// `(current + delta) mod size`: on `current + delta` itself whenever that lies
/// on the line, on the last position when stepping back from the first, and on
/// the first when stepping on from the last.
pub proof fn lemma_wrap_is_modular(current: int, delta: int, size: int)
    requires
        0 <= current < size,
        -1 <= delta <= 1,
    ensures
        wrapped(current + delta, size - 1) == (current + delta) % size,
        0 <= current + delta < size ==> wrapped(current + delta, size - 1) == current + delta,
{
    if current + delta < 0 {
        assert((current + delta) % size == size - 1) by {
            vstd::arithmetic::div_mod::lemma_fundamental_div_mod_converse(-1, size, -1, size - 1);
        }
    } else if current + delta >= size {
        assert((current + delta) % size == 0) by {
            vstd::arithmetic::div_mod::lemma_fundamental_div_mod_converse(size, size, 1, 0);
        }
    } else {
        vstd::arithmetic::div_mod::lemma_small_mod((current + delta) as nat, size as nat);
    }
}

/// The position one step of `delta` away from `current` on a line of `size`
/// positions, wrapping at either end. The arithmetic is that of `i16`.
pub fn wrap_position(current: u16, delta: i16, size: u16) -> (next: u16)
    requires
        i16::MIN <= (current as i16) + delta <= i16::MAX,
        (size as i16) > i16::MIN,
    ensures
        next == wrapped((current as i16) + delta, (size as i16) - 1) as u16,
        0 < size <= 0x7fff && current <= 0x7fff ==> next < size && next == wrapped(
            current + delta,
            size - 1,
        ),
{
    let start = current as i16;
    let last = size as i16 - 1;
    let mut moved = start + delta;
    if moved < 0 {
        moved = last;
    }
    if moved > last {
        moved = 0;
    }
    proof {
        assert(current <= 0x7fff ==> current as i16 == current) by (bit_vector);
        assert(size <= 0x7fff ==> size as i16 == size) by (bit_vector);
        assert(0 <= moved ==> moved as u16 == moved) by (bit_vector);
    }
    moved as u16
}

/// The cells of a board that hold a mine.
pub open spec fn mine_cells(b: Board) -> Set<(int, int)> {
    Set::new(|p: (int, int)| b.in_bounds(p.0, p.1) && b.cell(p.0, p.1).value == CellValue::Mine)
}

/// A board that can start a game of `nr_mines` mines whose first reveal is at
/// `cursor`: nothing flagged or revealed, and as many mines as fit outside the
/// 3 x 3 square around `cursor`, all of them there.
pub open spec fn fresh_board(b: Board, rows: int, cols: int, nr_mines: int, cursor: (int, int)) -> bool {
    let far = far_cells(rows, cols, cursor);
    &&& b.shaped()
    &&& b.rows == rows
    &&& b.cols == cols
    &&& consistent(b)
    &&& forall|r: int, c: int| b.in_bounds(r, c) ==> (#[trigger] b.cells[r][c]).state == CellState::Unflagged
    &&& mine_cells(b).subset_of(far)
    &&& mine_cells(b).len() == if nr_mines < far.len() {
        nr_mines
    } else {
        far.len() as int
    }
}

/// Where a game stands.
#[derive(Debug, Clone, Copy, PartialEq, Eq, Structural)]
pub enum GameStatus {
    Playing,
    Won,
    Lost,
}

/// A game on a `rows` x `cols` field with `nr_mines` mines. The mines are laid
/// when the first cell is revealed, never next to it.
pub struct Game {
    field: Option<Field>,
    rows: u16,
    cols: u16,
    nr_mines: usize,
}

/// Seen as a predicate on cells: a flagged mine.
pub open spec fn flagged_mine() -> spec_fn(Cell) -> bool {
    |cell: Cell| cell.state == CellState::Flagged && cell.value == CellValue::Mine
}

impl Game {
    /// The field, once the mines are laid.
    pub closed spec fn board(&self) -> Option<Board> {
        match self.field {
            Some(f) => Some(f@),
            None => None,
        }
    }

    pub closed spec fn spec_rows(&self) -> int {
        self.rows as int
    }

    pub closed spec fn spec_cols(&self) -> int {
        self.cols as int
    }

    pub closed spec fn spec_nr_mines(&self) -> int {
        self.nr_mines as int
    }

    /// A field, once there, is well formed and has the game's size.
    pub closed spec fn wf(&self) -> bool {
        match self.field {
            Some(f) => f.wf() && f@.rows == self.rows && f@.cols == self.cols,
            None => true,
        }
    }

    /// The field of a well-formed game, once there, is shaped, every number on
    /// it counts the mines around, and it has the game's size.
    pub proof fn lemma_wf_board(&self)
        requires
            self.wf(),
        ensures
            self.board() matches Some(b) ==> b.shaped() && consistent(b) && b.rows == self.spec_rows()
                && b.cols == self.spec_cols(),
    {
    }

    pub fn new(rows: u16, cols: u16, nr_mines: usize) -> (game: Self)
        ensures
            game.wf(),
            game.board() == None::<Board>,
            game.spec_rows() == rows,
            game.spec_cols() == cols,
            game.spec_nr_mines() == nr_mines,
    {
        Game { field: None, rows, cols, nr_mines }
    }

    pub fn rows(&self) -> (n: u16)
        ensures
            n == self.spec_rows(),
    {
        self.rows
    }

    pub fn cols(&self) -> (n: u16)
        ensures
            n == self.spec_cols(),
    {
        self.cols
    }

    pub fn nr_mines(&self) -> (n: usize)
        ensures
            n == self.spec_nr_mines(),
    {
        self.nr_mines
    }

    /// The field, once the mines are laid.
    pub fn field(&self) -> (f: Option<&Field>)
        requires
            self.wf(),
        ensures
            match f {
                Some(f) => self.board() == Some(f@) && f.wf() && f@.rows == self.spec_rows() && f@.cols
                    == self.spec_cols(),
                None => self.board() == None::<Board>,
            },
    {
        match &self.field {
            Some(f) => Some(f),
            None => None,
        }
    }

    /// The flag key on the cell at `(row, col)`: flag an unflagged cell, unflag a
    /// flagged one, and `auto_flag` around a revealed one. Before the mines are
    /// laid nothing happens.
    pub fn flag(&mut self, row: usize, col: usize)
        requires
            old(self).wf(),
            old(self).board() is Some ==> row < old(self).spec_rows() && col < old(self).spec_cols(),
        ensures
            final(self).wf(),
            final(self).spec_rows() == old(self).spec_rows(),
            final(self).spec_cols() == old(self).spec_cols(),
            final(self).spec_nr_mines() == old(self).spec_nr_mines(),
            final(self).board() == match old(self).board() {
                None => None,
                Some(b) => Some(
                    match b.cell(row as int, col as int).state {
                        CellState::Unflagged => flagged_at(b, row as int, col as int),
                        CellState::Flagged => unflagged_at(b, row as int, col as int),
                        CellState::Revealed => if auto_flag_applies(b, row as int, col as int) {
                            flagged_around(b, row as int, col as int)
                        } else {
                            b
                        },
                    },
                ),
            },
    {
        match self.field.take() {
            Some(mut field) => {
                match field.cell(row, col).state {
                    CellState::Unflagged => field.flag(row, col),
                    CellState::Flagged => field.unflag(row, col),
                    CellState::Revealed => field.auto_flag(row, col),
                }
                self.field = Some(field);
            },
            None => {},
        }
    }

    /// The reveal key on the cell at `(row, col)`. The first one lays the mines,
    /// away from that cell, and reveals it; later ones `auto_reveal` around a
    /// revealed cell and reveal any other cell. Laying the mines fails with
    /// `NoRandomness`, and leaves the game as it was, when the operating system
    /// gives no random bytes.
    pub fn reveal_at(&mut self, row: u16, col: u16) -> (res: Result<(), NoRandomness>)
        requires
            old(self).wf(),
            row < old(self).spec_rows(),
            col < old(self).spec_cols(),
        ensures
            final(self).wf(),
            final(self).spec_rows() == old(self).spec_rows(),
            final(self).spec_cols() == old(self).spec_cols(),
            final(self).spec_nr_mines() == old(self).spec_nr_mines(),
            match old(self).board() {
                Some(b) => res is Ok && final(self).board() == Some(
                    if b.cell(row as int, col as int).state == CellState::Revealed {
                        if auto_reveal_applies(b, row as int, col as int) {
                            reveal_all(b, neighbors_in_state(b, row as int, col as int, CellState::Unflagged))
                        } else {
                            b
                        }
                    } else {
                        revealed_from(b, row as int, col as int)
                    },
                ),
                None => match res {
                    Err(_) => final(self).board() == None::<Board>,
                    Ok(()) => {
                    &&& exists|b0: Board|
                        #![trigger fresh_board(b0, old(self).spec_rows(), old(self).spec_cols(), old(self).spec_nr_mines(), (row as int, col as int))]
                        fresh_board(b0, old(self).spec_rows(), old(self).spec_cols(), old(self).spec_nr_mines(), (row as int, col as int))
                            && final(self).board() == Some(revealed_from(b0, row as int, col as int))
                    &&& final(self).board() matches Some(b1) && !is_lost(b1)
                        && b1.cell(row as int, col as int) == (Cell { value: CellValue::Value(0), state: CellState::Revealed })
                    },
                },
            },
    {
        match self.field.take() {
            Some(mut field) => {
                match field.cell(row as usize, col as usize).state {
                    CellState::Revealed => field.auto_reveal(row as usize, col as usize),
                    _ => field.reveal_cell(row as usize, col as usize),
                }
                self.field = Some(field);
                Ok(())
            },
            None => {
                let indices = candidate_cells(self.rows, self.cols, row, col);
                let mut rng = match seeded_rng() {
                    Ok(rng) => rng,
                    Err(_) => return Err(NoRandomness),
                };
                let mine_locations = sample_positions(&mut rng, &indices, self.nr_mines);
                proof {
                    assert forall|k: int| 0 <= k < mine_locations@.len() implies (#[trigger] mine_locations@[k]).0 < self.rows
                        && mine_locations@[k].1 < self.cols by {
                        let idx = choose|idx: Seq<int>|
                            #![trigger idx.no_duplicates()]
                            {
                                &&& idx.len() == mine_locations@.len()
                                &&& idx.no_duplicates()
                                &&& forall|i: int|
                                    0 <= i < idx.len() ==> 0 <= #[trigger] idx[i] < indices@.len() && mine_locations@[i] == indices@[idx[i]]
                            };
                        assert(0 <= idx[k] < indices@.len());
                    }
                }
                let mut field = Field::new_with_mines_at(self.rows as usize, self.cols as usize, mine_locations.as_slice());
                let ghost b0 = field@;
                proof {
                    lemma_sampled_mines(b0, indices@, mine_locations@, self.rows as int, self.cols as int, self.nr_mines as int, (row as int, col as int));
                    lemma_first_cell_empty(b0, (row as int, col as int));
                    lemma_reveal_loses_iff_mine(b0, row as int, col as int);
                    assert(!is_lost(b0)) by {
                        if is_lost(b0) {
                            let (i, j) = choose|i: int, j: int|
                                #![trigger b0.cells[i][j]]
                                b0.in_bounds(i, j) && b0.cell(i, j).state == CellState::Revealed && b0.cell(i, j).value
                                    == CellValue::Mine;
                        }
                    }
                }
                field.reveal_cell(row as usize, col as usize);
                proof {
                    let b1 = field@;
                    crate::flood::lemma_spreads_to_self(b0, (row as int, col as int));
                    assert(b1.cells[row as int][col as int] == b1.cell(row as int, col as int));
                }
                self.field = Some(field);
                assert(fresh_board(b0, old(self).spec_rows(), old(self).spec_cols(), old(self).spec_nr_mines(), (row as int, col as int)));
                Ok(())
            },
        }
    }

    /// How many mines have been flagged.
    pub fn flagged_mines(&self) -> (n: usize)
        requires
            self.wf(),
        ensures
            n == match self.board() {
                None => 0,
                Some(b) => b.cells.flatten().filter(flagged_mine()).len(),
            },
    {
        match &self.field {
            None => 0,
            Some(field) => {
                let cells = field.iter();
                let mut count: usize = 0;
                let mut k: usize = 0;
                while k < cells.len()
                    invariant
                        k <= cells@.len(),
                        count == cells@.take(k as int).filter(flagged_mine()).len(),
                        count <= k,
                    decreases cells@.len() - k,
                {
                    proof {
                        crate::grid::lemma_filter_take_step(cells@, flagged_mine(), k as int);
                    }
                    let cell = cells[k];
                    if cell.state == CellState::Flagged && cell.value == CellValue::Mine {
                        count = count + 1;
                    }
                    k = k + 1;
                }
                assert(cells@.take(cells@.len() as int) =~= cells@);
                count
            },
        }
    }

    /// Where the game stands: lost once a mine is revealed, won once every
    /// other cell is revealed, and playing before the mines are laid.
    pub fn status(&self) -> (s: GameStatus)
        requires
            self.wf(),
        ensures
            s == match self.board() {
                None => GameStatus::Playing,
                Some(b) => if is_lost(b) {
                    GameStatus::Lost
                } else if is_won(b) {
                    GameStatus::Won
                } else {
                    GameStatus::Playing
                },
            },
    {
        match &self.field {
            None => GameStatus::Playing,
            Some(field) => {
                if field.lost() {
                    GameStatus::Lost
                } else if field.won() {
                    GameStatus::Won
                } else {
                    GameStatus::Playing
                }
            },
        }
    }
}

/// The board that the sampled locations give is a fresh board.
proof fn lemma_sampled_mines(
    b: Board,
    candidates: Seq<(usize, usize)>,
    chosen: Seq<(usize, usize)>,
    rows: int,
    cols: int,
    nr_mines: int,
    cursor: (int, int),
)
    requires
        0 <= rows <= 0xffff,
        0 <= cols <= 0xffff,
        0 <= nr_mines,
        b.shaped(),
        consistent(b),
        b.rows == rows,
        b.cols == cols,
        forall|r: int, c: int|
            b.in_bounds(r, c) ==> (#[trigger] b.cell(r, c)).state == CellState::Unflagged
                && ((b.cell(r, c).value == CellValue::Mine) <==> chosen.contains((r as usize, c as usize))),
        positions(candidates).to_set() == far_cells(rows, cols, cursor),
        positions(candidates).no_duplicates(),
        forall|i: int| 0 <= i < candidates.len() ==> (#[trigger] candidates[i]).0 < rows && candidates[i].1 < cols,
        chosen.len() == if nr_mines < candidates.len() { nr_mines } else { candidates.len() as int },
        picked_from(chosen, candidates),
    ensures
        fresh_board(b, rows, cols, nr_mines, cursor),
{
    let idx = choose|idx: Seq<int>|
        #![trigger idx.no_duplicates()]
        {
            &&& idx.len() == chosen.len()
            &&& idx.no_duplicates()
            &&& forall|i: int| 0 <= i < idx.len() ==> 0 <= #[trigger] idx[i] < candidates.len() && chosen[i] == candidates[idx[i]]
        };
    let pc = positions(candidates);
    let ps = positions(chosen);
    let far = far_cells(rows, cols, cursor);
    assert forall|i: int, j: int| 0 <= i < ps.len() && 0 <= j < ps.len() && i != j implies ps[i] != ps[j] by {
        assert(0 <= idx[i] < candidates.len() && chosen[i] == candidates[idx[i]]);
        assert(0 <= idx[j] < candidates.len() && chosen[j] == candidates[idx[j]]);
        assert(idx[i] != idx[j]);
        assert(pc[idx[i]] != pc[idx[j]]);
    }
    assert(ps.no_duplicates());
    assert forall|p: (int, int)| #[trigger] mine_cells(b).contains(p) <==> ps.to_set().contains(p) by {
        if mine_cells(b).contains(p) {
            assert(b.cells[p.0][p.1] == b.cell(p.0, p.1));
            assert(chosen.contains((p.0 as usize, p.1 as usize)));
            let k = choose|k: int| 0 <= k < chosen.len() && chosen[k] == (p.0 as usize, p.1 as usize);
            assert(ps[k] == p);
        }
        if ps.to_set().contains(p) {
            let k = choose|k: int| 0 <= k < ps.len() && ps[k] == p;
            assert(0 <= idx[k] < candidates.len() && chosen[k] == candidates[idx[k]]);
            assert(chosen.contains(chosen[k]));
            assert(b.cells[p.0][p.1] == b.cell(p.0, p.1));
        }
    }
    assert(mine_cells(b) =~= ps.to_set());
    ps.unique_seq_to_set();
    pc.unique_seq_to_set();
    assert forall|p: (int, int)| #[trigger] mine_cells(b).contains(p) implies far.contains(p) by {
        let k = choose|k: int| 0 <= k < ps.len() && ps[k] == p;
        assert(0 <= idx[k] < candidates.len() && chosen[k] == candidates[idx[k]]);
        assert(pc[idx[k]] == p);
        assert(pc.to_set().contains(p));
    }
    assert forall|r: int, c: int| b.in_bounds(r, c) implies (#[trigger] b.cells[r][c]).state == CellState::Unflagged by {
        assert(b.cells[r][c] == b.cell(r, c));
    }
}

/// On a fresh board the cell of the first reveal is empty and not a mine.
proof fn lemma_first_cell_empty(b: Board, cursor: (int, int))
    requires
        b.shaped(),
        consistent(b),
        b.in_bounds(cursor.0, cursor.1),
        mine_cells(b).subset_of(far_cells(b.rows, b.cols, cursor)),
    ensures
        b.cell(cursor.0, cursor.1).value == CellValue::Value(0),
{
    assert(!mine_cells(b).contains(cursor));
    assert forall|p: (int, int)| b.in_bounds(p.0, p.1) && adjacent(p, cursor) implies #[trigger] b.cell(p.0, p.1).value != CellValue::Mine by {
        assert(!far_cells(b.rows, b.cols, cursor).contains(p));
        assert(!mine_cells(b).contains(p));
    }
    lemma_no_mines_around_is_empty(b, cursor.0, cursor.1);
}

} // verus!
