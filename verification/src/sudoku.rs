//! A 9x9 sudoku board used by the kernel's demo workload.
//!
//! Cells hold `0..=8` for the digits 1 to 9 and `9` for an empty cell.
//! The board keeps a count of empty cells so that `solved` is O(1).

use vstd::prelude::*;

verus! {

/// Value a cell holds while no digit has been placed in it.
pub const EMPTY_CELL: u8 = 9;

/// Number of empty cells among the first `n` cells of one row.
pub open spec fn row_empties(row: Seq<u8>, n: int) -> int
    decreases n,
{
    if n <= 0 {
        0
    } else {
        row_empties(row, n - 1) + if row[n - 1] == EMPTY_CELL {
            1int
        } else {
            0int
        }
    }
}

/// Number of empty cells among the first `n` rows of the grid.
pub open spec fn grid_empties(g: Seq<Seq<u8>>, n: int) -> int
    decreases n,
{
    if n <= 0 {
        0
    } else {
        grid_empties(g, n - 1) + row_empties(g[n - 1], 9)
    }
}

/// Two distinct filled cells that share a row, a column or a 3x3 box and
/// hold the same digit.
pub open spec fn cells_conflict(g: Seq<Seq<u8>>, y1: int, x1: int, y2: int, x2: int) -> bool {
    &&& (y1 != y2 || x1 != x2)
    &&& (y1 == y2 || x1 == x2 || (y1 / 3 == y2 / 3 && x1 / 3 == x2 / 3))
    &&& g[y1][x1] != EMPTY_CELL
    &&& g[y2][x2] != EMPTY_CELL
    &&& g[y1][x1] == g[y2][x2]
}

/// No digit occurs twice in any row, column or 3x3 box.
pub open spec fn grid_valid(g: Seq<Seq<u8>>) -> bool {
    forall|y1: int, x1: int, y2: int, x2: int|
        0 <= y1 < 9 && 0 <= x1 < 9 && 0 <= y2 < 9 && 0 <= x2 < 9
            ==> !#[trigger] cells_conflict(g, y1, x1, y2, x2)
}

/// Index of the first newline in `s`, or `s.len()` when there is none.
pub open spec fn first_newline(s: Seq<char>) -> int
    decreases s.len(),
{
    if s.len() == 0 {
        0
    } else if s[0] == '\n' {
        0
    } else {
        1 + first_newline(s.drop_first())
    }
}

/// The text split at every newline; a trailing newline yields a final
/// empty line.
pub open spec fn split_lines(s: Seq<char>) -> Seq<Seq<char>>
    decreases s.len(),
{
    let k = first_newline(s);
    if 0 <= k < s.len() {
        seq![s.take(k)] + split_lines(s.skip(k + 1))
    } else {
        seq![s]
    }
}

/// A character allowed in one of the first nine lines: an empty-cell
/// mark or a digit.
pub open spec fn cell_char(c: char) -> bool {
    c == '_' || (48 <= c as u32 <= 57)
}

/// A digit character that places a value: `'1'` through `'9'`.
pub open spec fn digit_char(c: char) -> bool {
    49 <= c as u32 <= 57
}

/// What a board description may hold: at most nine lines of at most
/// nine cell characters each, and nothing but blank lines after them.
pub open spec fn board_text_ok(s: Seq<char>) -> bool {
    let lines = split_lines(s);
    forall|i: int| 0 <= i < lines.len() ==> if i < 9 {
        (#[trigger] lines[i]).len() <= 9 && forall|x: int| 0 <= x < lines[i].len()
            ==> cell_char(#[trigger] lines[i][x])
    } else {
        forall|x: int| 0 <= x < (#[trigger] lines[i]).len()
            ==> lines[i][x] == ' ' || lines[i][x] == '\t' || lines[i][x] == '\r'
    }
}

/// The cell value row `y`, column `x` of the text describes: a digit
/// places its value minus one, anything else (including a missing
/// character) leaves the cell empty.
pub open spec fn parsed_cell(lines: Seq<Seq<char>>, y: int, x: int) -> u8 {
    if y < lines.len() && x < lines[y].len() && digit_char(lines[y][x]) {
        (lines[y][x] as u32 - 49) as u8
    } else {
        EMPTY_CELL
    }
}

/// Row `y` of the grid holds exactly what the text describes.
pub open spec fn row_fully(row: Seq<u8>, lines: Seq<Seq<char>>, y: int) -> bool {
    forall|x: int| 0 <= x < 9 ==> #[trigger] row[x] == parsed_cell(lines, y, x)
}

/// Every cell of the row is still empty.
pub open spec fn row_empty(row: Seq<u8>) -> bool {
    forall|x: int| 0 <= x < 9 ==> #[trigger] row[x] == EMPTY_CELL
}

/// The first `upto` rows hold what the text describes; the rest are
/// untouched.
pub open spec fn rows_done(g: Seq<Vec<u8>>, lines: Seq<Seq<char>>, upto: int) -> bool {
    forall|y: int| 0 <= y < 9 ==> (if y < upto {
        row_fully((#[trigger] g[y])@, lines, y)
    } else {
        row_empty(g[y]@)
    })
}

/// Like `rows_done`, but saying nothing of row `skip`.
pub open spec fn rows_done_except(g: Seq<Vec<u8>>, lines: Seq<Seq<char>>, upto: int, skip: int) -> bool {
    forall|y: int| 0 <= y < 9 && y != skip ==> (if y < upto {
        row_fully((#[trigger] g[y])@, lines, y)
    } else {
        row_empty(g[y]@)
    })
}

/// The first `upto` cells of row `y` hold what the text describes; the
/// rest are still empty.
pub open spec fn row_parsed_upto(row: Seq<u8>, lines: Seq<Seq<char>>, y: int, upto: int) -> bool {
    forall|x: int| 0 <= x < 9 ==> #[trigger] row[x] == (if x < upto {
        parsed_cell(lines, y, x)
    } else {
        EMPTY_CELL
    })
}

/// Splitting at a newline found at offset `k` peels off one line.
proof fn lemma_first_newline_is(s: Seq<char>, k: int)
    requires
        0 <= k <= s.len(),
        forall|i: int| 0 <= i < k ==> s[i] != '\n',
        k == s.len() || s[k] == '\n',
    ensures
        first_newline(s) == k,
    decreases s.len(),
{
    if s.len() == 0 {
    } else if s[0] == '\n' {
        assert(k == 0);
    } else {
        assert(k >= 1);
        lemma_first_newline_is(s.drop_first(), k - 1);
    }
}

/// A (possibly partial) assignment of digits to the 9x9 board.
#[derive(Clone)]
pub struct Solution {
    inner: Vec<Vec<u8>>,
    remaining: u8,
}

impl Solution {
    /// The board as a 9x9 grid of cell values.
    pub closed spec fn grid(self) -> Seq<Seq<u8>> {
        self.inner@.map_values(|r: Vec<u8>| r@)
    }

    /// Internal invariant: the grid is 9x9 and `remaining` counts its
    /// empty cells.
    pub closed spec fn wf(self) -> bool {
        &&& self.inner@.len() == 9
        &&& forall|y: int| 0 <= y < 9 ==> (#[trigger] self.inner@[y])@.len() == 9
        &&& self.remaining == grid_empties(self.grid(), 9)
    }

    /// Parses a board description: one line per row, `_` or `0` marking
    /// an empty cell and a digit placing its value.  Lines beyond the
    /// ninth must be blank; short lines leave their remaining cells
    /// empty.
    pub fn load_string(contents: &str) -> (r: Solution)
        requires
            board_text_ok(contents@),
        ensures
            r.wf(),
            forall|y: int, x: int| 0 <= y < 9 && 0 <= x < 9
                ==> r.grid()[y][x] == parsed_cell(split_lines(contents@), y, x),
    {
        let ghost s = contents@;
        let ghost lines = split_lines(s);
        let n = contents.unicode_len();
        let mut inner: Vec<Vec<u8>> = Vec::new();
        while inner.len() < 9
            invariant
                inner@.len() <= 9,
                forall|y: int| 0 <= y < inner@.len() ==> (#[trigger] inner@[y])@.len() == 9,
                forall|y: int| 0 <= y < inner@.len() ==> row_empty((#[trigger] inner@[y])@),
            decreases 9 - inner@.len(),
        {
            let mut row: Vec<u8> = Vec::new();
            while row.len() < 9
                invariant
                    row@.len() <= 9,
                    forall|x: int| 0 <= x < row@.len() ==> #[trigger] row@[x] == EMPTY_CELL,
                decreases 9 - row@.len(),
            {
                row.push(EMPTY_CELL);
            }
            inner.push(row);
        }
        proof {
            assert(s.skip(0) =~= s);
            assert(lines.skip(0) =~= lines);
            assert(split_lines(s).len() >= 1);
            assert(rows_done(inner@, lines, 0));
        }
        let mut pos: usize = 0;
        let mut li: usize = 0;
        while pos < n
            invariant
                n == s.len(),
                s == contents@,
                lines == split_lines(s),
                board_text_ok(s),
                pos <= n,
                li <= pos,
                li <= lines.len(),
                inner@.len() == 9,
                forall|y: int| 0 <= y < 9 ==> (#[trigger] inner@[y])@.len() == 9,
                rows_done(inner@, lines, li as int),
                (pos == n && li == lines.len()) || (li < lines.len() && lines.skip(li as int)
                    == split_lines(s.skip(pos as int))),
            decreases n - pos,
        {
            let ghost sfx = s.skip(pos as int);
            let mut j = pos;
            while j < n && contents.get_char(j) != '\n'
                invariant
                    n == s.len(),
                    s == contents@,
                    pos <= j <= n,
                    forall|i: int| pos <= i < j ==> s[i] != '\n',
                decreases n - j,
            {
                j = j + 1;
            }
            proof {
                assert forall|i: int| 0 <= i < j - pos implies sfx[i] != '\n' by {
                    assert(sfx[i] == s[pos + i]);
                }
                if j < n {
                    assert(sfx[j - pos] == s[j as int]);
                }
                lemma_first_newline_is(sfx, j - pos);
                assert(lines.skip(li as int) == split_lines(sfx));
                if j < n {
                    assert(split_lines(sfx) == seq![sfx.take(j - pos)] + split_lines(
                        sfx.skip(j - pos + 1),
                    ));
                    assert(lines.skip(li as int)[0] == lines[li as int]);
                    assert(lines[li as int] == sfx.take(j - pos));
                    assert(sfx.skip(j - pos + 1) =~= s.skip(j + 1));
                    assert(lines.skip(li as int).drop_first() =~= lines.skip(li as int + 1));
                    assert(lines.skip(li as int + 1) == split_lines(s.skip(j + 1)));
                } else {
                    assert(split_lines(sfx) == seq![sfx]);
                    assert(lines.skip(li as int) =~= seq![sfx]);
                    assert(lines.skip(li as int)[0] == lines[li as int]);
                    assert(lines[li as int] == sfx);
                    assert(lines.len() - li == 1);
                }
                assert(lines[li as int].len() == j - pos);
                assert forall|i: int| 0 <= i < j - pos implies
                    #[trigger] lines[li as int][i] == s[pos + i] by {
                    assert(sfx[i] == s[pos + i]);
                }
            }
            if li < 9 {
                let ghost line = lines[li as int];
                proof {
                    assert(line.len() <= 9);
                    assert(rows_done_except(inner@, lines, li as int, li as int));
                    assert(row_empty(inner@[li as int]@));
                    assert(row_parsed_upto(inner@[li as int]@, lines, li as int, 0));
                }
                let mut x: usize = 0;
                while pos + x < j
                    invariant
                        n == s.len(),
                        s == contents@,
                        lines == split_lines(s),
                        board_text_ok(s),
                        li < 9,
                        li < lines.len(),
                        pos <= n,
                        j <= n,
                        pos + x <= j,
                        line == lines[li as int],
                        line.len() == j - pos,
                        line.len() <= 9,
                        forall|i: int| 0 <= i < line.len() ==> #[trigger] line[i] == s[pos + i],
                        x <= line.len(),
                        inner@.len() == 9,
                        forall|y: int| 0 <= y < 9 ==> (#[trigger] inner@[y])@.len() == 9,
                        rows_done_except(inner@, lines, li as int, li as int),
                        row_parsed_upto(inner@[li as int]@, lines, li as int, x as int),
                    decreases j - pos - x,
                {
                    let c = contents.get_char(pos + x);
                    proof {
                        assert(line[x as int] == s[pos + x]);
                        assert(c == line[x as int]);
                    }
                    let d = c as u32;
                    if 49 <= d && d <= 57 {
                        let v = (d - 49) as u8;
                        let ghost inner0 = inner@;
                        let mut row = inner.remove(li);
                        row.set(x, v);
                        inner.insert(li, row);
                        proof {
                            assert(inner@[li as int]@ =~= inner0[li as int]@.update(x as int, v));
                            assert forall|yy: int| 0 <= yy < 9 && yy != li implies
                                #[trigger] inner@[yy] == inner0[yy] by {}
                            assert(digit_char(line[x as int]));
                            assert(parsed_cell(lines, li as int, x as int) == v);
                            assert(rows_done_except(inner@, lines, li as int, li as int));
                            assert(row_parsed_upto(inner@[li as int]@, lines, li as int,
                                x as int + 1));
                        }
                    } else {
                        proof {
                            assert(!digit_char(line[x as int]));
                            assert(parsed_cell(lines, li as int, x as int) == EMPTY_CELL);
                            assert(row_parsed_upto(inner@[li as int]@, lines, li as int,
                                x as int + 1));
                        }
                    }
                    x = x + 1;
                }
                proof {
                    assert forall|xx: int| 0 <= xx < 9 implies
                        #[trigger] inner@[li as int]@[xx] == parsed_cell(lines, li as int, xx) by {
                        if xx >= line.len() {
                            assert(parsed_cell(lines, li as int, xx) == EMPTY_CELL);
                        }
                    }
                    assert(row_fully(inner@[li as int]@, lines, li as int));
                }
            }
            if j < n {
                pos = j + 1;
            } else {
                pos = j;
            }
            li = li + 1;
            proof {
                assert forall|y: int| 0 <= y < 9 implies (if y < li as int {
                    row_fully((#[trigger] inner@[y])@, lines, y)
                } else {
                    row_empty(inner@[y]@)
                }) by {
                    if y + 1 == li as int {
                        if li <= 9 {
                            assert(row_fully(inner@[y]@, lines, y));
                        }
                    }
                }
                assert(rows_done(inner@, lines, li as int));
                if pos < n || li < lines.len() {
                    assert(lines.skip(li as int) == split_lines(s.skip(pos as int)));
                    assert(split_lines(s.skip(pos as int)).len() >= 1);
                    assert(li < lines.len());
                }
            }
        }
        proof {
            if li < lines.len() {
                // The text ended without a final newline: the remaining
                // line is empty and describes nothing.
                assert(lines.skip(li as int) == split_lines(s.skip(pos as int)));
                assert(s.skip(pos as int) =~= Seq::<char>::empty());
                assert(first_newline(Seq::<char>::empty()) == 0);
                assert(split_lines(s.skip(pos as int)) == seq![s.skip(pos as int)]);
                assert(lines.len() - li == 1);
                assert(lines.skip(li as int)[0] == lines[li as int]);
                assert(lines[li as int].len() == 0);
            }
            assert forall|y: int, x: int| 0 <= y < 9 && 0 <= x < 9 implies
                #[trigger] inner@[y]@[x] == parsed_cell(lines, y, x) by {
                if y >= li {
                    assert(row_empty(inner@[y]@));
                    assert(parsed_cell(lines, y, x) == EMPTY_CELL);
                } else {
                    assert(row_fully(inner@[y]@, lines, y));
                }
            }
        }
        // Count the empty cells so `solved` can be O(1).
        let mut remaining: u8 = 0;
        let mut y: usize = 0;
        while y < 9
            invariant
                y <= 9,
                inner@.len() == 9,
                forall|yy: int| 0 <= yy < 9 ==> (#[trigger] inner@[yy])@.len() == 9,
                remaining == grid_empties(inner@.map_values(|r: Vec<u8>| r@), y as int),
                remaining <= 9 * y,
            decreases 9 - y,
        {
            let ghost g = inner@.map_values(|r: Vec<u8>| r@);
            let mut x: usize = 0;
            let mut row_count: u8 = 0;
            while x < 9
                invariant
                    x <= 9,
                    y < 9,
                    inner@.len() == 9,
                    forall|yy: int| 0 <= yy < 9 ==> (#[trigger] inner@[yy])@.len() == 9,
                    g == inner@.map_values(|r: Vec<u8>| r@),
                    row_count == row_empties(g[y as int], x as int),
                    row_count <= x,
                decreases 9 - x,
            {
                proof {
                    assert(g[y as int][x as int] == inner@[y as int]@[x as int]);
                }
                if inner[y][x] == EMPTY_CELL {
                    row_count = row_count + 1;
                }
                x = x + 1;
            }
            remaining = remaining + row_count;
            y = y + 1;
        }
        let r = Solution { inner, remaining };
        proof {
            assert forall|y2: int, x2: int| 0 <= y2 < 9 && 0 <= x2 < 9 implies
                #[trigger] r.grid()[y2][x2] == parsed_cell(lines, y2, x2) by {
                assert(r.grid()[y2] == r.inner@[y2]@);
            }
        }
        r
    }


    /// Reads the cell in column `x` of row `y`.
    pub fn get(&self, x: usize, y: usize) -> (r: u8)
        requires
            self.wf(),
            x < 9,
            y < 9,
        ensures
            r == self.grid()[y as int][x as int],
    {
        self.inner[y][x]
    }

    /// Writes `val` into the cell in column `x` of row `y`, keeping the
    /// count of empty cells in step.
    pub fn set(&mut self, x: usize, y: usize, val: u8)
        requires
            old(self).wf(),
            x < 9,
            y < 9,
        ensures
            final(self).wf(),
            final(self).grid() == old(self).grid().update(
                y as int,
                old(self).grid()[y as int].update(x as int, val),
            ),
    {
        let ghost g0 = self.grid();
        let cur = self.inner[y][x];
        proof {
            assert(g0[y as int][x as int] == cur);
            lemma_grid_empties_bounds(g0, 9);
            if cur == EMPTY_CELL {
                lemma_grid_empties_pos(g0, 9, y as int, x as int);
            }
        }
        if cur != EMPTY_CELL && val == EMPTY_CELL {
            self.remaining = self.remaining + 1;
        } else if cur == EMPTY_CELL && val != EMPTY_CELL {
            self.remaining = self.remaining - 1;
        }
        let mut row = self.inner.remove(y);
        row.set(x, val);
        self.inner.insert(y, row);
        proof {
            let g1 = self.grid();
            assert(g1 =~= g0.update(y as int, g0[y as int].update(x as int, val)));
            lemma_grid_empties_update(g0, g1, y as int, x as int, 9);
        }
    }

    /// Marks every listed cell empty again, in order.
    pub fn undo(&mut self, revert: &[(u8, u8)])
        requires
            old(self).wf(),
            forall|k: int| 0 <= k < revert@.len()
                ==> (#[trigger] revert@[k]).0 < 9 && revert@[k].1 < 9,
        ensures
            final(self).wf(),
            final(self).grid() == undo_spec(old(self).grid(), revert@, revert@.len() as int),
    {
        let mut k: usize = 0;
        while k < revert.len()
            invariant
                k <= revert@.len(),
                self.wf(),
                forall|j: int| 0 <= j < revert@.len()
                    ==> (#[trigger] revert@[j]).0 < 9 && revert@[j].1 < 9,
                self.grid() == undo_spec(old(self).grid(), revert@, k as int),
            decreases revert@.len() - k,
        {
            let p = revert[k];
            self.set(p.0 as usize, p.1 as usize, EMPTY_CELL);
            k = k + 1;
        }
    }

    /// True exactly when every cell holds a digit.
    pub fn solved(&self) -> (r: bool)
        requires
            self.wf(),
        ensures
            r == forall|y: int, x: int| 0 <= y < 9 && 0 <= x < 9
                ==> #[trigger] self.grid()[y][x] != EMPTY_CELL,
    {
        proof {
            lemma_grid_empties_zero(self.grid(), 9);
        }
        self.remaining == 0
    }

    /// True exactly when no digit occurs twice in any row, column or
    /// 3x3 box.
    pub fn is_valid(&self) -> (r: bool)
        requires
            self.wf(),
        ensures
            r == grid_valid(self.grid()),
    {
        let ghost g = self.grid();
        let mut y1: usize = 0;
        while y1 < 9
            invariant
                y1 <= 9,
                self.wf(),
                g == self.grid(),
                forall|a: int, b: int, c: int, d: int|
                    0 <= a < y1 && 0 <= b < 9 && 0 <= c < 9 && 0 <= d < 9
                        ==> !#[trigger] cells_conflict(g, a, b, c, d),
            decreases 9 - y1,
        {
            let mut x1: usize = 0;
            while x1 < 9
                invariant
                    y1 < 9,
                    x1 <= 9,
                    self.wf(),
                    g == self.grid(),
                    forall|a: int, b: int, c: int, d: int|
                        0 <= a < y1 && 0 <= b < 9 && 0 <= c < 9 && 0 <= d < 9
                            ==> !#[trigger] cells_conflict(g, a, b, c, d),
                    forall|b: int, c: int, d: int|
                        0 <= b < x1 && 0 <= c < 9 && 0 <= d < 9
                            ==> !#[trigger] cells_conflict(g, y1 as int, b, c, d),
                decreases 9 - x1,
            {
                let c1 = self.inner[y1][x1];
                if c1 != EMPTY_CELL {
                    let mut y2: usize = 0;
                    while y2 < 9
                        invariant
                            y1 < 9,
                            x1 < 9,
                            y2 <= 9,
                            self.wf(),
                            g == self.grid(),
                            c1 == g[y1 as int][x1 as int],
                            c1 != EMPTY_CELL,
                            forall|c: int, d: int|
                                0 <= c < y2 && 0 <= d < 9
                                    ==> !#[trigger] cells_conflict(g, y1 as int, x1 as int, c, d),
                        decreases 9 - y2,
                    {
                        let mut x2: usize = 0;
                        while x2 < 9
                            invariant
                                y1 < 9,
                                x1 < 9,
                                y2 < 9,
                                x2 <= 9,
                                self.wf(),
                                g == self.grid(),
                                c1 == g[y1 as int][x1 as int],
                                c1 != EMPTY_CELL,
                                forall|c: int, d: int|
                                    0 <= c < y2 && 0 <= d < 9
                                        ==> !#[trigger] cells_conflict(g, y1 as int, x1 as int, c, d),
                                forall|d: int|
                                    0 <= d < x2
                                        ==> !#[trigger] cells_conflict(g, y1 as int, x1 as int, y2 as int, d),
                            decreases 9 - x2,
                        {
                            let distinct = y1 != y2 || x1 != x2;
                            let shares_unit = y1 == y2 || x1 == x2
                                || (y1 / 3 == y2 / 3 && x1 / 3 == x2 / 3);
                            if distinct && shares_unit {
                                let c2 = self.inner[y2][x2];
                                if c2 != EMPTY_CELL && c1 == c2 {
                                    proof {
                                        assert(cells_conflict(
                                            g, y1 as int, x1 as int, y2 as int, x2 as int));
                                    }
                                    return false;
                                }
                            }
                            proof {
                                assert(!cells_conflict(
                                    g, y1 as int, x1 as int, y2 as int, x2 as int));
                            }
                            x2 = x2 + 1;
                        }
                        y2 = y2 + 1;
                    }
                } else {
                    proof {
                        assert(g[y1 as int][x1 as int] == c1);
                        assert forall|c: int, d: int| 0 <= c < 9 && 0 <= d < 9 implies
                            !#[trigger] cells_conflict(g, y1 as int, x1 as int, c, d) by {}
                    }
                }
                x1 = x1 + 1;
            }
            y1 = y1 + 1;
        }
        true
    }
}

impl PartialEq for Solution {
    /// Two boards are equal when their grids agree; the empty-cell
    /// count is derived state and takes no part.
    fn eq(&self, other: &Solution) -> (r: bool) {
        if self.inner.len() != other.inner.len() {
            proof {
                assert(self.grid().len() == self.inner@.len());
                assert(other.grid().len() == other.inner@.len());
            }
            return false;
        }
        let mut y: usize = 0;
        while y < self.inner.len()
            invariant
                y <= self.inner@.len(),
                self.inner@.len() == other.inner@.len(),
                forall|i: int| 0 <= i < y ==> self.grid()[i] == other.grid()[i],
            decreases self.inner@.len() - y,
        {
            if self.inner[y].len() != other.inner[y].len() {
                proof {
                    assert(self.grid()[y as int].len() == self.inner@[y as int]@.len());
                    assert(other.grid()[y as int].len() == other.inner@[y as int]@.len());
                }
                return false;
            }
            let mut x: usize = 0;
            while x < self.inner[y].len()
                invariant
                    y < self.inner@.len(),
                    self.inner@.len() == other.inner@.len(),
                    self.inner@[y as int]@.len() == other.inner@[y as int]@.len(),
                    x <= self.inner@[y as int]@.len(),
                    forall|i: int| 0 <= i < y ==> self.grid()[i] == other.grid()[i],
                    forall|i: int| 0 <= i < x
                        ==> self.grid()[y as int][i] == other.grid()[y as int][i],
                decreases self.inner@[y as int]@.len() - x,
            {
                if self.inner[y][x] != other.inner[y][x] {
                    proof {
                        assert(self.grid()[y as int][x as int] == self.inner@[y as int]@[x as int]);
                        assert(other.grid()[y as int][x as int]
                            == other.inner@[y as int]@[x as int]);
                    }
                    return false;
                }
                proof {
                    assert(self.grid()[y as int][x as int] == self.inner@[y as int]@[x as int]);
                    assert(other.grid()[y as int][x as int] == other.inner@[y as int]@[x as int]);
                }
                x = x + 1;
            }
            proof {
                assert(self.grid()[y as int] =~= other.grid()[y as int]);
            }
            y = y + 1;
        }
        proof {
            assert(self.grid() =~= other.grid());
        }
        true
    }
}

impl vstd::std_specs::cmp::PartialEqSpecImpl for Solution {
    open spec fn obeys_eq_spec() -> bool {
        true
    }

    open spec fn eq_spec(&self, other: &Solution) -> bool {
        self.grid() == other.grid()
    }
}

/// The grid after marking each listed cell (in order) empty.
pub open spec fn undo_spec(g: Seq<Seq<u8>>, ps: Seq<(u8, u8)>, n: int) -> Seq<Seq<u8>>
    decreases n,
{
    if n <= 0 {
        g
    } else {
        let g2 = undo_spec(g, ps, n - 1);
        let p = ps[n - 1];
        g2.update(p.1 as int, g2[p.1 as int].update(p.0 as int, EMPTY_CELL))
    }
}

/// At most `n` of the first `n` cells of a row are empty, and never a
/// negative number of them.
proof fn lemma_row_empties_bounds(row: Seq<u8>, n: int)
    ensures
        0 <= row_empties(row, n),
        row_empties(row, n) <= if n >= 0 { n } else { 0 },
    decreases n,
{
    if n > 0 {
        lemma_row_empties_bounds(row, n - 1);
    }
}

/// The empty-cell count of a grid prefix lies between 0 and 9 per row.
proof fn lemma_grid_empties_bounds(g: Seq<Seq<u8>>, n: int)
    ensures
        0 <= grid_empties(g, n),
        grid_empties(g, n) <= if n >= 0 { 9 * n } else { 0 },
    decreases n,
{
    if n > 0 {
        lemma_grid_empties_bounds(g, n - 1);
        lemma_row_empties_bounds(g[n - 1], 9);
    }
}

/// An empty cell within the counted range makes the row count positive.
proof fn lemma_row_empties_pos(row: Seq<u8>, n: int, x: int)
    requires
        0 <= x < n,
        row[x] == EMPTY_CELL,
    ensures
        row_empties(row, n) >= 1,
    decreases n,
{
    lemma_row_empties_bounds(row, n - 1);
    if x < n - 1 {
        lemma_row_empties_pos(row, n - 1, x);
    }
}

/// An empty cell within the counted range makes the grid count positive.
proof fn lemma_grid_empties_pos(g: Seq<Seq<u8>>, n: int, y: int, x: int)
    requires
        0 <= y < n,
        0 <= x < 9,
        g[y][x] == EMPTY_CELL,
    ensures
        grid_empties(g, n) >= 1,
    decreases n,
{
    lemma_grid_empties_bounds(g, n - 1);
    lemma_row_empties_bounds(g[n - 1], 9);
    if y < n - 1 {
        lemma_grid_empties_pos(g, n - 1, y, x);
    } else {
        lemma_row_empties_pos(g[y], 9, x);
    }
}

/// The row count is zero exactly when no counted cell is empty.
proof fn lemma_row_empties_zero(row: Seq<u8>, n: int)
    ensures
        row_empties(row, n) == 0 <==> forall|x: int| 0 <= x < n ==> #[trigger] row[x] != EMPTY_CELL,
    decreases n,
{
    if n > 0 {
        lemma_row_empties_zero(row, n - 1);
        lemma_row_empties_bounds(row, n - 1);
    }
}

/// The grid count is zero exactly when no counted cell is empty.
proof fn lemma_grid_empties_zero(g: Seq<Seq<u8>>, n: int)
    ensures
        grid_empties(g, n) == 0 <==> forall|y: int, x: int| 0 <= y < n && 0 <= x < 9
            ==> #[trigger] g[y][x] != EMPTY_CELL,
    decreases n,
{
    if n > 0 {
        lemma_grid_empties_zero(g, n - 1);
        lemma_grid_empties_bounds(g, n - 1);
        lemma_row_empties_zero(g[n - 1], 9);
        lemma_row_empties_bounds(g[n - 1], 9);
    }
}

/// Changing one cell changes the row count by the difference of the old
/// and new cell's emptiness.
proof fn lemma_row_empties_update(row: Seq<u8>, row2: Seq<u8>, x: int, n: int)
    requires
        0 <= x,
        forall|k: int| 0 <= k < n && k != x ==> #[trigger] row2[k] == row[k],
    ensures
        x < n ==> row_empties(row2, n) == row_empties(row, n)
            + (if row2[x] == EMPTY_CELL { 1int } else { 0int })
            - (if row[x] == EMPTY_CELL { 1int } else { 0int }),
        x >= n ==> row_empties(row2, n) == row_empties(row, n),
    decreases n,
{
    if n > 0 {
        lemma_row_empties_update(row, row2, x, n - 1);
    }
}

/// Changing one cell changes the grid count by the difference of the old
/// and new cell's emptiness.
proof fn lemma_grid_empties_update(g: Seq<Seq<u8>>, g2: Seq<Seq<u8>>, y: int, x: int, n: int)
    requires
        0 <= y < g.len(),
        0 <= x < 9,
        n <= g.len(),
        g[y].len() == 9,
        g2.len() == g.len(),
        g2[y] == g[y].update(x, g2[y][x]),
        forall|k: int| 0 <= k < g.len() && k != y ==> #[trigger] g2[k] == g[k],
    ensures
        y < n ==> grid_empties(g2, n) == grid_empties(g, n)
            + (if g2[y][x] == EMPTY_CELL { 1int } else { 0int })
            - (if g[y][x] == EMPTY_CELL { 1int } else { 0int }),
        y >= n ==> grid_empties(g2, n) == grid_empties(g, n),
    decreases n,
{
    if n > 0 {
        lemma_grid_empties_update(g, g2, y, x, n - 1);
        if y == n - 1 {
            assert forall|k: int| 0 <= k < 9 && k != x implies #[trigger] g2[y][k] == g[y][k] by {}
            lemma_row_empties_update(g[y], g2[y], x, 9);
            assert(grid_empties(g2, n) == grid_empties(g2, n - 1) + row_empties(g2[n - 1], 9));
            assert(grid_empties(g, n) == grid_empties(g, n - 1) + row_empties(g[n - 1], 9));
            assert(grid_empties(g2, n - 1) == grid_empties(g, n - 1));
            assert(row_empties(g2[y], 9) == row_empties(g[y], 9)
                + (if g2[y][x] == EMPTY_CELL { 1int } else { 0int })
                - (if g[y][x] == EMPTY_CELL { 1int } else { 0int }));
        } else {
            assert(g2[n - 1] == g[n - 1]);
        }
    }
}

} // verus!
