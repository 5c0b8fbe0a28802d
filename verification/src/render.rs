use vstd::prelude::*;
use crate::field::{Board, Cell, CellState, CellValue, Field};
use crate::grid::{consistent, mine_count, lemma_neighbor_seq, neighbor_seq};

verus! {

/// The lines joined by newline characters.
pub open spec fn join_lines(lines: Seq<Seq<char>>) -> Seq<char>
    decreases lines.len(),
{
    if lines.len() == 0 {
        Seq::empty()
    } else if lines.len() == 1 {
        lines[0]
    } else {
        join_lines(lines.drop_last()) + seq!['\n'] + lines.last()
    }
}

/// The board as the player sees it, row by row.
pub open spec fn player_lines(b: Board) -> Seq<Seq<char>> {
    Seq::new(b.rows as nat, |i: int| Seq::new(b.cols as nat, |j: int| player_char(b.cells[i][j])))
}

/// What the cells of the board hold, row by row.
pub open spec fn value_lines(b: Board) -> Seq<Seq<char>> {
    Seq::new(b.rows as nat, |i: int| Seq::new(b.cols as nat, |j: int| value_char(b.cells[i][j])))
}

/// A revealed count is shown as its decimal digit, and only a count of zero
/// as a blank: different counts look different.
pub proof fn lemma_counts_shown_as_digits()
    ensures
        count_char(0) == ' ',
        forall|n: usize| 1 <= n <= 8 ==> (#[trigger] count_char(n)) as int == '0' as int + n,
        forall|n: usize, m: usize| n <= 8 && m <= 8 && n != m ==> #[trigger] count_char(n) != #[trigger] count_char(m),
        forall|cell: Cell|
            cell.state == CellState::Revealed && cell.value is Value && 1 <= cell.value->0 <= 8
                ==> (#[trigger] player_char(cell)) as int == '0' as int + cell.value->0,
        forall|cell: Cell|
            cell.state == CellState::Revealed && cell.value == CellValue::Value(0) ==> #[trigger] player_char(cell) == ' ',
{
    assert forall|n: usize| 1 <= n <= 8 implies (#[trigger] count_char(n)) as int == '0' as int + n by {
        if n == 1 {
        } else if n == 2 {
        } else if n == 3 {
        } else if n == 4 {
        } else if n == 5 {
        } else if n == 6 {
        } else if n == 7 {
        } else {
        }
    }
}

/// The digit shown for a cell with `n` mines around it; a blank for none.
pub open spec fn count_char(n: usize) -> char {
    if n == 0 {
        ' '
    } else if n == 1 {
        '1'
    } else if n == 2 {
        '2'
    } else if n == 3 {
        '3'
    } else if n == 4 {
        '4'
    } else if n == 5 {
        '5'
    } else if n == 6 {
        '6'
    } else if n == 7 {
        '7'
    } else {
        '8'
    }
}

/// What the player sees of a cell: a dot while unflagged, a flag, or once
/// revealed `M` for a mine and the count otherwise.
pub open spec fn player_char(cell: Cell) -> char {
    match cell.state {
        CellState::Unflagged => '\u{b7}',
        CellState::Flagged => '\u{2690}',
        CellState::Revealed => match cell.value {
            CellValue::Mine => 'M',
            CellValue::Value(n) => count_char(n),
        },
    }
}

/// What a cell holds, whatever its state: `M` for a mine, the count otherwise.
pub open spec fn value_char(cell: Cell) -> char {
    match cell.value {
        CellValue::Mine => 'M',
        CellValue::Value(n) => count_char(n),
    }
}

/// A count of at most eight mines.
pub open spec fn small_count(cell: Cell) -> bool {
    cell.value matches CellValue::Value(n) ==> n <= 8
}

/// `String::push`: appends the character `c` to `s`.
#[verifier::external_body]
fn push_char(s: &mut String, c: char)
    ensures
        final(s)@ == old(s)@.push(c),
{
    s.push(c);
}

/// The decimal digit `d`.
pub open spec fn digit_char(d: int) -> char {
    if d == 0 {
        '0'
    } else if d == 1 {
        '1'
    } else if d == 2 {
        '2'
    } else if d == 3 {
        '3'
    } else if d == 4 {
        '4'
    } else if d == 5 {
        '5'
    } else if d == 6 {
        '6'
    } else if d == 7 {
        '7'
    } else if d == 8 {
        '8'
    } else {
        '9'
    }
}

/// `n` written in decimal, without leading zeros.
pub open spec fn decimal(n: nat) -> Seq<char>
    decreases n,
{
    if n < 10 {
        seq![digit_char(n as int)]
    } else {
        decimal(n / 10).push(digit_char((n % 10) as int))
    }
}

/// The first line of the debug text of a `rows` x `cols` field.
pub open spec fn debug_header(rows: nat, cols: nat) -> Seq<char> {
    seq!['F', 'i', 'e', 'l', 'd', ' ', 'w', 'i', 't', 'h', ' '] + decimal(rows) + seq![
        ' ',
        'r',
        'o',
        'w',
        's',
        ' ',
        'a',
        'n',
        'd',
        ' ',
    ] + decimal(cols) + seq![' ', 'c', 'o', 'l', 's', ':', '\n']
}

fn digit(d: usize) -> (c: char)
    requires
        d < 10,
    ensures
        c == digit_char(d as int),
{
    if d == 0 {
        '0'
    } else if d == 1 {
        '1'
    } else if d == 2 {
        '2'
    } else if d == 3 {
        '3'
    } else if d == 4 {
        '4'
    } else if d == 5 {
        '5'
    } else if d == 6 {
        '6'
    } else if d == 7 {
        '7'
    } else if d == 8 {
        '8'
    } else {
        '9'
    }
}

/// Append `n` in decimal to `s`.
fn push_decimal(s: &mut String, n: usize)
    ensures
        final(s)@ == old(s)@ + decimal(n as nat),
    decreases n,
{
    let ghost start = s@;
    if n >= 10 {
        push_decimal(s, n / 10);
    }
    push_char(s, digit(n % 10));
    proof {
        if n >= 10 {
            assert(s@ =~= start + decimal(n as nat));
        } else {
            assert(s@ =~= start + decimal(n as nat));
        }
    }
}

/// Append the characters of `chars` to `s`, in order.
pub(crate) fn push_chars(s: &mut String, chars: &[char])
    ensures
        final(s)@ == old(s)@ + chars@,
{
    let ghost start = s@;
    let mut k: usize = 0;
    while k < chars.len()
        invariant
            k <= chars@.len(),
            s@ == start + chars@.take(k as int),
        decreases chars@.len() - k,
    {
        push_char(s, chars[k]);
        assert(chars@.take(k + 1) =~= chars@.take(k as int).push(chars@[k as int]));
        k = k + 1;
    }
    assert(chars@.take(chars@.len() as int) =~= chars@);
}

fn count_digit(n: usize) -> (c: char)
    requires
        n <= 8,
    ensures
        c == count_char(n),
{
    if n == 0 {
        ' '
    } else if n == 1 {
        '1'
    } else if n == 2 {
        '2'
    } else if n == 3 {
        '3'
    } else if n == 4 {
        '4'
    } else if n == 5 {
        '5'
    } else if n == 6 {
        '6'
    } else if n == 7 {
        '7'
    } else {
        '8'
    }
}

/// Render a cell as the player sees it.
///
/// Requires a count of at most eight mines, as every cell of a well-formed field has.
pub fn player_view(cell: &Cell) -> (c: char)
    requires
        small_count(*cell),
    ensures
        c == player_char(*cell),
{
    match cell.state {
        CellState::Unflagged => '\u{b7}',
        CellState::Flagged => '\u{2690}',
        CellState::Revealed => match cell.value {
            CellValue::Mine => 'M',
            CellValue::Value(n) => count_digit(n),
        },
    }
}

/// Render what a cell holds.
///
/// Requires a count of at most eight mines, as every cell of a well-formed field has.
pub fn value_view(cell: &Cell) -> (c: char)
    requires
        small_count(*cell),
    ensures
        c == value_char(*cell),
{
    match cell.value {
        CellValue::Mine => 'M',
        CellValue::Value(n) => count_digit(n),
    }
}

/// In a consistent board no cell counts more than eight mines.
pub proof fn lemma_small_counts(b: Board)
    requires
        b.shaped(),
        consistent(b),
    ensures
        forall|r: int, c: int| b.in_bounds(r, c) ==> small_count(#[trigger] b.cells[r][c]),
{
    assert forall|r: int, c: int| b.in_bounds(r, c) implies small_count(#[trigger] b.cells[r][c]) by {
        lemma_neighbor_seq(b.rows, b.cols, r, c);
        neighbor_seq(b.rows, b.cols, r, c).lemma_filter_len(crate::grid::mine_at(b));
        assert(mine_count(b, r, c) <= 8);
    }
}

impl Field {
    /// Append the field to `res`, rendering its [`Cell`]s as `char`s with `format`.
    fn write_with_format<F>(&self, res: &mut String, format: F) where F: Fn(&Cell) -> char
        requires
            self@.shaped(),
            forall|r: int, c: int| self@.in_bounds(r, c) ==> call_requires(format, (&#[trigger] self@.cells[r][c],)),
        ensures
            exists|lines: Seq<Seq<char>>|
                {
                    &&& lines.len() == self@.rows
                    &&& forall|r: int| 0 <= r < self@.rows ==> (#[trigger] lines[r]).len() == self@.cols
                    &&& forall|r: int, c: int|
                        self@.in_bounds(r, c) ==> call_ensures(format, (&self@.cells[r][c],), #[trigger] lines[r][c])
                    &&& final(res)@ == old(res)@ + join_lines(lines)
                },
    {
        let ghost b = self@;
        let ghost start = res@;
        let ghost mut lines: Seq<Seq<char>> = Seq::empty();
        let mut r: usize = 0;
        while r < self.rows()
            invariant
                b == self@,
                b.shaped(),
                forall|i: int, j: int| b.in_bounds(i, j) ==> call_requires(format, (&#[trigger] b.cells[i][j],)),
                r <= b.rows,
                lines.len() == r,
                forall|i: int| 0 <= i < r ==> (#[trigger] lines[i]).len() == b.cols,
                forall|i: int, j: int|
                    0 <= i < r && 0 <= j < b.cols ==> call_ensures(format, (&b.cells[i][j],), #[trigger] lines[i][j]),
                res@ == start + join_lines(lines),
            decreases b.rows - r,
        {
            let ghost prefix = res@;
            if r > 0 {
                push_char(res, '\n');
            }
            let ghost mut line: Seq<char> = Seq::empty();
            let mut c: usize = 0;
            while c < self.cols()
                invariant
                    b == self@,
                    b.shaped(),
                    forall|i: int, j: int| b.in_bounds(i, j) ==> call_requires(format, (&#[trigger] b.cells[i][j],)),
                    r < b.rows,
                    c <= b.cols,
                    line.len() == c,
                    forall|j: int| 0 <= j < c ==> call_ensures(format, (&b.cells[r as int][j],), #[trigger] line[j]),
                    res@ == if r == 0 {
                        start + line
                    } else {
                        prefix + seq!['\n'] + line
                    },
                decreases b.cols - c,
            {
                let cell = self.cell(r, c);
                assert(b.in_bounds(r as int, c as int));
                let ch = format(&cell);
                push_char(res, ch);
                proof {
                    line = line.push(ch);
                }
                c = c + 1;
            }
            proof {
                let old_lines = lines;
                lines = lines.push(line);
                assert(lines.drop_last() =~= old_lines);
                assert(res@ =~= start + join_lines(lines));
            }
            r = r + 1;
        }
    }

    /// Display the field with the specified function that renders [`Cell`]s as `char`s.
    pub fn display_with_format<F>(&self, format: F) -> (res: String) where F: Fn(&Cell) -> char
        requires
            self@.shaped(),
            forall|r: int, c: int| self@.in_bounds(r, c) ==> call_requires(format, (&#[trigger] self@.cells[r][c],)),
        ensures
            exists|lines: Seq<Seq<char>>|
                {
                    &&& lines.len() == self@.rows
                    &&& forall|r: int| 0 <= r < self@.rows ==> (#[trigger] lines[r]).len() == self@.cols
                    &&& forall|r: int, c: int|
                        self@.in_bounds(r, c) ==> call_ensures(format, (&self@.cells[r][c],), #[trigger] lines[r][c])
                    &&& res@ == join_lines(lines)
                },
    {
        let mut res = String::new();
        self.write_with_format(&mut res, format);
        proof {
            assert forall|x: Seq<char>| Seq::<char>::empty() + x == x by {
                assert(Seq::<char>::empty() + x =~= x);
            }
        }
        res
    }

    /// The debug text of the field: a line with its size, then what every cell
    /// holds, one line per row.
    pub fn debug_string(&self) -> (res: String)
        requires
            self.wf(),
        ensures
            res@ == debug_header(self@.rows as nat, self@.cols as nat) + join_lines(value_lines(self@)),
    {
        proof {
            lemma_small_counts(self@);
        }
        let mut res = String::new();
        let head = ['F', 'i', 'e', 'l', 'd', ' ', 'w', 'i', 't', 'h', ' '];
        let middle = [' ', 'r', 'o', 'w', 's', ' ', 'a', 'n', 'd', ' '];
        let tail = [' ', 'c', 'o', 'l', 's', ':', '\n'];
        push_chars(&mut res, head.as_slice());
        push_decimal(&mut res, self.rows());
        push_chars(&mut res, middle.as_slice());
        push_decimal(&mut res, self.cols());
        push_chars(&mut res, tail.as_slice());
        let ghost header = res@;
        proof {
            assert(head@ =~= seq!['F', 'i', 'e', 'l', 'd', ' ', 'w', 'i', 't', 'h', ' ']);
            assert(middle@ =~= seq![' ', 'r', 'o', 'w', 's', ' ', 'a', 'n', 'd', ' ']);
            assert(tail@ =~= seq![' ', 'c', 'o', 'l', 's', ':', '\n']);
            assert(header =~= debug_header(self@.rows as nat, self@.cols as nat));
        }
        self.write_with_format(&mut res, value_view);
        proof {
            let b = self@;
            let want = value_lines(b);
            let lines = choose|lines: Seq<Seq<char>>|
                {
                    &&& lines.len() == b.rows
                    &&& forall|r: int| 0 <= r < b.rows ==> (#[trigger] lines[r]).len() == b.cols
                    &&& forall|r: int, c: int|
                        b.in_bounds(r, c) ==> call_ensures(value_view, (&b.cells[r][c],), #[trigger] lines[r][c])
                    &&& res@ == header + join_lines(lines)
                };
            assert forall|r: int| 0 <= r < b.rows implies #[trigger] lines[r] =~= want[r] by {
                assert forall|c: int| 0 <= c < b.cols implies #[trigger] lines[r][c] == want[r][c] by {
                    assert(b.in_bounds(r, c));
                }
            }
            assert(lines =~= want);
        }
        res
    }

    /// The field as the player sees it, one line per row.
    pub fn display_string(&self) -> (res: String)
        requires
            self.wf(),
        ensures
            res@ == join_lines(player_lines(self@)),
    {
        proof {
            lemma_small_counts(self@);
        }
        let res = self.display_with_format(player_view);
        proof {
            let b = self@;
            let want = player_lines(b);
            let lines = choose|lines: Seq<Seq<char>>|
                {
                    &&& lines.len() == b.rows
                    &&& forall|r: int| 0 <= r < b.rows ==> (#[trigger] lines[r]).len() == b.cols
                    &&& forall|r: int, c: int|
                        b.in_bounds(r, c) ==> call_ensures(player_view, (&b.cells[r][c],), #[trigger] lines[r][c])
                    &&& res@ == join_lines(lines)
                };
            assert forall|r: int| 0 <= r < b.rows implies #[trigger] lines[r] =~= want[r] by {
                assert forall|c: int| 0 <= c < b.cols implies #[trigger] lines[r][c] == want[r][c] by {
                    assert(b.in_bounds(r, c));
                }
            }
            assert(lines =~= want);
        }
        res
    }

    /// What every cell of the field holds, one line per row.
    pub fn values_string(&self) -> (res: String)
        requires
            self.wf(),
        ensures
            res@ == join_lines(value_lines(self@)),
    {
        proof {
            lemma_small_counts(self@);
        }
        let res = self.display_with_format(value_view);
        proof {
            let b = self@;
            let want = value_lines(b);
            let lines = choose|lines: Seq<Seq<char>>|
                {
                    &&& lines.len() == b.rows
                    &&& forall|r: int| 0 <= r < b.rows ==> (#[trigger] lines[r]).len() == b.cols
                    &&& forall|r: int, c: int|
                        b.in_bounds(r, c) ==> call_ensures(value_view, (&b.cells[r][c],), #[trigger] lines[r][c])
                    &&& res@ == join_lines(lines)
                };
            assert forall|r: int| 0 <= r < b.rows implies #[trigger] lines[r] =~= want[r] by {
                assert forall|c: int| 0 <= c < b.cols implies #[trigger] lines[r][c] == want[r][c] by {
                    assert(b.in_bounds(r, c));
                }
            }
            assert(lines =~= want);
        }
        res
    }
}

} // verus!
