//! The board: grid, turn counter, placement and game status.
use crate::grid::{cells_of, grid_filled, grid_get, grid_set, Grid};
use crate::lane::{check_lane, lane_has_win, square_char, window_won, Square};
use vstd::prelude::*;
use vstd::string::*;

verus! {

/// The state of a game, computed afresh from the board.
#[derive(Clone, Copy, PartialEq, Eq, Structural, Debug)]
pub enum BoardStatus {
    InProgress,
    Draw,
    Win(Square),
}

/// Why a piece could not be placed; each carries the coordinates asked for.
#[derive(Clone, Copy, PartialEq, Eq, Structural, Debug)]
pub enum PlaceError {
    Occupied(usize, usize),
    OutOfBounds(usize, usize),
}

/// A `size` by `size` grid and the number of pieces placed on it so far.
pub struct Board {
    size: usize,
    board: Grid,
    turn: usize,
}

/// The mark placed by the move made when `turn` pieces stand on the board.
pub open spec fn mark_for(turn: nat) -> Square {
    if turn % 2 == 0 {
        Square::X
    } else {
        Square::O
    }
}

/// The mark of the player who made the latest move when `turn` pieces stand
/// on the board.
pub open spec fn last_mover(turn: nat) -> Square {
    if turn % 2 == 0 {
        Square::O
    } else {
        Square::X
    }
}

/// The number of cells of `row` that hold a mark.
pub open spec fn row_marks(row: Seq<Square>) -> nat
    decreases row.len(),
{
    if row.len() == 0 {
        0
    } else {
        row_marks(row.drop_last()) + if row.last() != Square::Blank {
            1nat
        } else {
            0nat
        }
    }
}

/// The number of cells of the grid `g` that hold a mark.
pub open spec fn marks(g: Seq<Seq<Square>>) -> nat
    decreases g.len(),
{
    if g.len() == 0 {
        0
    } else {
        marks(g.drop_last()) + row_marks(g.last())
    }
}

/// `g` has `n` rows of `n` cells each.
pub open spec fn is_square(g: Seq<Seq<Square>>, n: nat) -> bool {
    &&& g.len() == n
    &&& forall|i: int| 0 <= i < n ==> #[trigger] g[i].len() == n
}

/// The grid of side `n` with every cell blank.
pub open spec fn empty_grid(n: nat) -> Seq<Seq<Square>> {
    Seq::new(n, |i: int| Seq::new(n, |j: int| Square::Blank))
}

/// Row `r` of `g`, left to right.
pub open spec fn row_lane(g: Seq<Seq<Square>>, r: int) -> Seq<Square> {
    g[r]
}

/// Column `c` of `g`, top to bottom.
pub open spec fn column_lane(g: Seq<Seq<Square>>, c: int) -> Seq<Square> {
    Seq::new(g.len(), |i: int| g[i][c])
}

/// The diagonal of `g` that starts at `(ro, co)` and steps down and right
/// until it leaves the grid.
pub open spec fn diagonal_lane(g: Seq<Seq<Square>>, ro: int, co: int) -> Seq<Square> {
    Seq::new((g.len() - (ro + co)) as nat, |k: int| g[ro + k][co + k])
}

/// One of the two diagonals that start `d` cells from the top-left corner,
/// along the top edge or down the left edge, holds a run of `w`.
pub open spec fn diagonal_pair_wins(g: Seq<Seq<Square>>, d: int, w: int) -> bool {
    lane_has_win(diagonal_lane(g, 0, d), w) || lane_has_win(diagonal_lane(g, d, 0), w)
}

/// Some row, column, or diagonal that starts on the top or left edge at most
/// `g.len() - w` cells from the corner, holds `w` consecutive equal marks.
/// Only diagonals that run down and to the right are scanned: a run along a
/// diagonal that runs down and to the left is not a win.
pub open spec fn has_winning_lane(g: Seq<Seq<Square>>, w: int) -> bool {
    let n = g.len() as int;
    ||| exists|r: int| 0 <= r < n && lane_has_win(#[trigger] row_lane(g, r), w)
    ||| exists|c: int| 0 <= c < n && lane_has_win(#[trigger] column_lane(g, c), w)
    ||| exists|d: int| 0 <= d <= n - w && #[trigger] diagonal_pair_wins(g, d, w)
}

/// The status of grid `g` after `turn` moves, for runs of length `w`.
pub open spec fn status_of(g: Seq<Seq<Square>>, turn: nat, w: int) -> BoardStatus {
    if has_winning_lane(g, w) {
        BoardStatus::Win(last_mover(turn))
    } else if turn >= g.len() * g.len() {
        BoardStatus::Draw
    } else {
        BoardStatus::InProgress
    }
}

/// `n` groups of four dashes.
pub open spec fn dashes(n: nat) -> Seq<char>
    decreases n,
{
    if n == 0 {
        Seq::empty()
    } else {
        dashes((n - 1) as nat) + seq!['-', '-', '-', '-']
    }
}

/// The line drawn above, between and below the rows of a board of side `n`.
pub open spec fn border_line(n: nat) -> Seq<char> {
    seq!['-'] + dashes(n) + seq!['\n']
}

/// The cells of a row, each drawn as its character between a space and a
/// space followed by a bar.
pub open spec fn cells_text(row: Seq<Square>) -> Seq<char>
    decreases row.len(),
{
    if row.len() == 0 {
        Seq::empty()
    } else {
        cells_text(row.drop_last()) + seq![' ', square_char(row.last()), ' ', '|']
    }
}

/// The rows of `g`, each drawn between a bar and a line break and followed
/// by a border line of side `n`.
pub open spec fn rows_text(g: Seq<Seq<Square>>, n: nat) -> Seq<char>
    decreases g.len(),
{
    if g.len() == 0 {
        Seq::empty()
    } else {
        rows_text(g.drop_last(), n) + seq!['|'] + cells_text(g.last()) + seq!['\n'] + border_line(n)
    }
}

/// The text drawing of a board of side `n` with cells `g`.
pub open spec fn board_text(g: Seq<Seq<Square>>, n: nat) -> Seq<char> {
    border_line(n) + rows_text(g, n)
}

/// Appends the border line of a board of side `n`.
fn push_border(s: &mut String, n: usize)
    ensures
        final(s)@ == old(s)@ + border_line(n as nat),
{
    proof {
        reveal_strlit("-");
        reveal_strlit("----");
        reveal_strlit("\n");
    }
    s.append("-");
    let mut k: usize = 0;
    while k < n
        invariant
            k <= n,
            s@ == old(s)@ + seq!['-'] + dashes(k as nat),
        decreases n - k,
    {
        s.append("----");
        k = k + 1;
        proof {
            reveal_strlit("----");
            assert(s@ =~= old(s)@ + seq!['-'] + dashes(k as nat));
        }
    }
    s.append("\n");
    proof {
        assert(s@ =~= old(s)@ + border_line(n as nat));
    }
}

/// Appends the drawing of one cell.
fn push_cell(s: &mut String, cell: Square)
    ensures
        final(s)@ == old(s)@ + seq![' ', square_char(cell), ' ', '|'],
{
    proof {
        reveal_strlit(" X |");
        reveal_strlit(" O |");
        reveal_strlit("   |");
    }
    match cell {
        Square::X => s.append(" X |"),
        Square::O => s.append(" O |"),
        Square::Blank => s.append("   |"),
    }
    proof {
        assert(s@ =~= old(s)@ + seq![' ', square_char(cell), ' ', '|']);
    }
}

/// The `k`-th start point of the diagonals scanned for a win: the corner,
/// then one step along the top edge and one down the left edge, in turn.
pub open spec fn diagonal_offset(k: int) -> (int, int) {
    if k % 2 == 1 {
        (0, (k + 1) / 2)
    } else {
        (k / 2, 0)
    }
}

/// The start points of all diagonals that can hold a run of `win_threshold`
/// on a board of side `size`: `(0, 0)`, then `(0, d)` and `(d, 0)` for each
/// `d` from 1 to `size - win_threshold`.
pub fn diagonal_offsets(size: usize, win_threshold: usize) -> (r: Vec<(usize, usize)>)
    requires
        win_threshold <= size,
        2 * (size - win_threshold) + 1 <= usize::MAX,
    ensures
        r@.len() == 2 * (size - win_threshold) + 1,
        forall|k: int|
            0 <= k < r@.len() ==> (#[trigger] r@[k]).0 == diagonal_offset(k).0 && r@[k].1
                == diagonal_offset(k).1,
{
    let last = size - win_threshold;
    let mut r: Vec<(usize, usize)> = Vec::new();
    r.push((0, 0));
    let mut d: usize = 1;
    while d <= last
        invariant
            last == size - win_threshold,
            2 * last + 1 <= usize::MAX,
            1 <= d <= last + 1,
            r@.len() == 2 * d - 1,
            forall|k: int|
                0 <= k < r@.len() ==> (#[trigger] r@[k]).0 == diagonal_offset(k).0 && r@[k].1
                    == diagonal_offset(k).1,
        decreases last + 1 - d,
    {
        r.push((0, d));
        r.push((d, 0));
        d = d + 1;
    }
    r
}

impl Board {
    /// The cells of the board, row by row.
    pub closed spec fn cells(&self) -> Seq<Seq<Square>> {
        cells_of(self.board)
    }

    /// The side of the board.
    pub closed spec fn side(&self) -> nat {
        self.size as nat
    }

    /// The number of pieces placed so far.
    pub closed spec fn turns(&self) -> nat {
        self.turn as nat
    }

    /// The grid is `size` by `size`, and the turn counter equals the number
    /// of marked cells.
    pub closed spec fn wf(&self) -> bool {
        &&& is_square(self.cells(), self.size as nat)
        &&& self.turn == marks(self.cells())
        &&& self.size * self.size <= isize::MAX
    }

    /// An empty board of side `size`.
    pub fn new(size: usize) -> (b: Board)
        requires
            size * size <= isize::MAX,
        ensures
            b.wf(),
            b.side() == size,
            b.cells() == empty_grid(size as nat),
            b.turns() == 0,
    {
        let board = grid_filled(size, Square::Blank);
        let b = Board { size, board, turn: 0 };
        proof {
            assert(b.cells() =~= empty_grid(size as nat));
            lemma_empty_grid_marks(size as nat, size as nat);
        }
        b
    }

    /// The side of the board.
    pub fn size(&self) -> (r: usize)
        ensures
            r == self.side(),
    {
        self.size
    }

    /// The number of pieces placed so far.
    pub fn turn(&self) -> (r: usize)
        ensures
            r == self.turns(),
    {
        self.turn
    }

    /// The cell at `(row, col)`, or `None` outside the board.
    pub fn cell(&self, row: usize, col: usize) -> (r: Option<Square>)
        requires
            self.wf(),
        ensures
            r == (if row < self.side() && col < self.side() {
                Some(self.cells()[row as int][col as int])
            } else {
                None
            }),
    {
        if row >= self.size || col >= self.size {
            return None;
        }
        proof {
            assert(self.cells()[row as int].len() == self.size);
        }
        Some(grid_get(&self.board, row, col))
    }

    /// The board drawn as text: a border line, then each row between bars
    /// and followed by a border line.
    pub fn render(&self) -> (r: String)
        requires
            self.wf(),
        ensures
            r@ == board_text(self.cells(), self.side()),
    {
        let ghost g = self.cells();
        let n = self.size;
        let mut s = String::new();
        push_border(&mut s, n);
        let mut i: usize = 0;
        while i < n
            invariant
                self.wf(),
                g == self.cells(),
                n == self.size,
                i <= n,
                s@ == border_line(n as nat) + rows_text(g.subrange(0, i as int), n as nat),
            decreases n - i,
        {
            proof {
                assert(g[i as int].len() == n);
            }
            let ghost before = s@;
            proof {
                reveal_strlit("|");
            }
            s.append("|");
            let mut j: usize = 0;
            while j < n
                invariant
                    self.wf(),
                    g == self.cells(),
                    n == self.size,
                    i < n,
                    g[i as int].len() == n,
                    j <= n,
                    s@ == before + seq!['|'] + cells_text(g[i as int].subrange(0, j as int)),
                decreases n - j,
            {
                push_cell(&mut s, grid_get(&self.board, i, j));
                j = j + 1;
                proof {
                    let row = g[i as int].subrange(0, j as int);
                    assert(row.drop_last() =~= g[i as int].subrange(0, j - 1));
                    assert(s@ =~= before + seq!['|'] + cells_text(row));
                }
            }
            proof {
                reveal_strlit("\n");
            }
            s.append("\n");
            push_border(&mut s, n);
            i = i + 1;
            proof {
                let rows = g.subrange(0, i as int);
                assert(rows.drop_last() =~= g.subrange(0, i - 1));
                assert(g[i - 1].subrange(0, n as int) =~= g[i - 1]);
                assert(s@ =~= border_line(n as nat) + rows_text(rows, n as nat));
            }
        }
        proof {
            assert(g.subrange(0, n as int) =~= g);
        }
        s
    }

    /// The cells of row `r`, left to right.
    fn row_cells(&self, r: usize) -> (v: Vec<Square>)
        requires
            self.wf(),
            r < self.side(),
        ensures
            v@ == row_lane(self.cells(), r as int),
    {
        let ghost g = self.cells();
        proof {
            assert(g[r as int].len() == self.size);
        }
        let mut v: Vec<Square> = Vec::new();
        let mut j: usize = 0;
        while j < self.size
            invariant
                self.wf(),
                g == self.cells(),
                r < self.size,
                g[r as int].len() == self.size,
                j <= self.size,
                v@ == g[r as int].subrange(0, j as int),
            decreases self.size - j,
        {
            v.push(grid_get(&self.board, r, j));
            j = j + 1;
            proof {
                assert(v@ =~= g[r as int].subrange(0, j as int));
            }
        }
        proof {
            assert(v@ =~= row_lane(g, r as int));
        }
        v
    }

    /// The cells of column `c`, top to bottom.
    fn column_cells(&self, c: usize) -> (v: Vec<Square>)
        requires
            self.wf(),
            c < self.side(),
        ensures
            v@ == column_lane(self.cells(), c as int),
    {
        let ghost g = self.cells();
        let mut v: Vec<Square> = Vec::new();
        let mut i: usize = 0;
        while i < self.size
            invariant
                self.wf(),
                g == self.cells(),
                c < self.size,
                i <= self.size,
                v@ == column_lane(g, c as int).subrange(0, i as int),
            decreases self.size - i,
        {
            proof {
                assert(g[i as int].len() == self.size);
            }
            v.push(grid_get(&self.board, i, c));
            i = i + 1;
            proof {
                assert(v@ =~= column_lane(g, c as int).subrange(0, i as int));
            }
        }
        proof {
            assert(v@ =~= column_lane(g, c as int));
        }
        v
    }

    /// The cells of the diagonal that starts at `(ro, co)`.
    fn diagonal_cells(&self, ro: usize, co: usize) -> (v: Vec<Square>)
        requires
            self.wf(),
            ro + co <= self.side(),
        ensures
            v@ == diagonal_lane(self.cells(), ro as int, co as int),
    {
        let ghost g = self.cells();
        let len = self.size - (ro + co);
        let mut v: Vec<Square> = Vec::new();
        let mut k: usize = 0;
        while k < len
            invariant
                self.wf(),
                g == self.cells(),
                ro + co <= self.size,
                len == self.size - (ro + co),
                k <= len,
                v@ == diagonal_lane(g, ro as int, co as int).subrange(0, k as int),
            decreases len - k,
        {
            proof {
                assert(g[ro + k].len() == self.size);
            }
            v.push(grid_get(&self.board, ro + k, co + k));
            k = k + 1;
            proof {
                assert(v@ =~= diagonal_lane(g, ro as int, co as int).subrange(0, k as int));
            }
        }
        proof {
            assert(v@ =~= diagonal_lane(g, ro as int, co as int));
        }
        v
    }

    /// The cells of the diagonal that starts at `offset` (row, column) and
    /// steps down and right. The start must lie on the top or the left edge:
    /// otherwise `offset` comes back as the error.
    pub fn get_diagonal(&self, offset: (usize, usize)) -> (r: Result<Vec<Square>, (usize, usize)>)
        requires
            self.wf(),
        ensures
            match r {
                Ok(v) => {
                    &&& offset.0 == 0 || offset.1 == 0
                    &&& offset.0 + offset.1 <= self.side()
                    &&& v@ == diagonal_lane(self.cells(), offset.0 as int, offset.1 as int)
                },
                Err(e) => {
                    &&& e == offset
                    &&& !((offset.0 == 0 || offset.1 == 0) && offset.0 + offset.1 <= self.side())
                },
            },
    {
        let (ro, co) = offset;
        if !(ro == 0 || co == 0) {
            return Err(offset);
        }
        if ro + co > self.size {
            return Err(offset);
        }
        Ok(self.diagonal_cells(ro, co))
    }

    /// The status of the game just after a move: a win for the player who
    /// made it when some lane holds `win_threshold` consecutive equal marks,
    /// a draw when the board is full, and in progress otherwise.
    pub fn check_status(&self, win_threshold: usize) -> (r: BoardStatus)
        requires
            self.wf(),
            1 <= win_threshold <= self.side(),
        ensures
            r == status_of(self.cells(), self.turns(), win_threshold as int),
    {
        let ghost g = self.cells();
        let w = win_threshold;
        let n = self.size;
        let winner = if self.turn % 2 == 0 {
            Square::O
        } else {
            Square::X
        };
        let mut r: usize = 0;
        while r < n
            invariant
                self.wf(),
                g == self.cells(),
                n == self.size,
                g.len() == n,
                w == win_threshold,
                winner == last_mover(self.turns()),
                r <= n,
                forall|rr: int| 0 <= rr < r ==> !lane_has_win(#[trigger] row_lane(g, rr), w as int),
            decreases n - r,
        {
            let lane = self.row_cells(r);
            if check_lane(&lane, w) {
                return BoardStatus::Win(winner);
            }
            r = r + 1;
        }
        let mut c: usize = 0;
        while c < n
            invariant
                self.wf(),
                g == self.cells(),
                n == self.size,
                g.len() == n,
                w == win_threshold,
                winner == last_mover(self.turns()),
                c <= n,
                forall|cc: int| 0 <= cc < c ==> !lane_has_win(#[trigger] column_lane(g, cc), w as int),
            decreases n - c,
        {
            let lane = self.column_cells(c);
            if check_lane(&lane, w) {
                return BoardStatus::Win(winner);
            }
            c = c + 1;
        }
        proof {
            assert(n <= isize::MAX) by (nonlinear_arith)
                requires
                    n * n <= isize::MAX,
                    n >= 1,
            ;
        }
        let offsets = diagonal_offsets(n, w);
        let mut k: usize = 0;
        while k < offsets.len()
            invariant
                self.wf(),
                g == self.cells(),
                n == self.size,
                g.len() == n,
                1 <= w <= n,
                w == win_threshold,
                winner == last_mover(self.turns()),
                offsets@.len() == 2 * (n - w) + 1,
                forall|kk: int|
                    0 <= kk < offsets@.len() ==> (#[trigger] offsets@[kk]).0 == diagonal_offset(kk).0
                        && offsets@[kk].1 == diagonal_offset(kk).1,
                k <= offsets@.len(),
                forall|kk: int|
                    0 <= kk < k ==> !lane_has_win(
                        #[trigger] diagonal_lane(g, diagonal_offset(kk).0, diagonal_offset(kk).1),
                        w as int,
                    ),
            decreases offsets.len() - k,
        {
            let (ro, co) = offsets[k];
            proof {
                assert(offsets@[k as int] == (ro, co));
            }
            let lane = self.diagonal_cells(ro, co);
            if check_lane(&lane, w) {
                proof {
                    let d = if ro == 0 { co as int } else { ro as int };
                    assert(0 <= d <= g.len() - w && diagonal_pair_wins(g, d, w as int));
                    assert(has_winning_lane(g, w as int));
                }
                return BoardStatus::Win(winner);
            }
            k = k + 1;
        }
        proof {
            assert forall|d: int| 0 <= d <= n - w implies !#[trigger] diagonal_pair_wins(
                g,
                d,
                w as int,
            ) by {
                assert(diagonal_offset(2 * d) == (d, 0int));
                assert(!lane_has_win(
                    diagonal_lane(g, diagonal_offset(2 * d).0, diagonal_offset(2 * d).1),
                    w as int,
                ));
                if d > 0 {
                    assert(diagonal_offset(2 * d - 1) == (0int, d));
                    assert(!lane_has_win(
                        diagonal_lane(g, diagonal_offset(2 * d - 1).0, diagonal_offset(2 * d - 1).1),
                        w as int,
                    ));
                }
            }
        }
        if self.turn >= n * n {
            return BoardStatus::Draw;
        }
        BoardStatus::InProgress
    }

    /// Places the mark of the player to move at `position` (row, column).
    /// Fails, leaving the board unchanged, when the position lies outside
    /// the board or its cell already holds a mark.
    pub fn place_piece(&mut self, position: (usize, usize)) -> (r: Result<(), PlaceError>)
        requires
            old(self).wf(),
        ensures
            final(self).wf(),
            final(self).side() == old(self).side(),
            match r {
                Ok(()) => {
                    &&& position.0 < old(self).side()
                    &&& position.1 < old(self).side()
                    &&& old(self).cells()[position.0 as int][position.1 as int] == Square::Blank
                    &&& final(self).cells() == with_cell(
                        old(self).cells(),
                        position.0 as int,
                        position.1 as int,
                        mark_for(old(self).turns()),
                    )
                    &&& final(self).turns() == old(self).turns() + 1
                },
                Err(PlaceError::OutOfBounds(row, col)) => {
                    &&& (row, col) == position
                    &&& (row >= old(self).side() || col >= old(self).side())
                    &&& *final(self) == *old(self)
                },
                Err(PlaceError::Occupied(row, col)) => {
                    &&& (row, col) == position
                    &&& row < old(self).side()
                    &&& col < old(self).side()
                    &&& old(self).cells()[row as int][col as int] != Square::Blank
                    &&& *final(self) == *old(self)
                },
            },
    {
        let (row, col) = position;
        if row >= self.size || col >= self.size {
            return Err(PlaceError::OutOfBounds(row, col));
        }
        proof {
            assert(self.cells()[row as int].len() == self.size);
        }
        if grid_get(&self.board, row, col) != Square::Blank {
            return Err(PlaceError::Occupied(row, col));
        }
        let piece = if self.turn % 2 == 0 {
            Square::X
        } else {
            Square::O
        };
        proof {
            lemma_mark_blank_cell(self.cells(), self.size as nat, row as int, col as int, piece);
        }
        grid_set(&mut self.board, row, col, piece);
        self.turn = self.turn + 1;
        Ok(())
    }
}

/// `g` with the cell at `(row, col)` set to `v`.
pub open spec fn with_cell(g: Seq<Seq<Square>>, row: int, col: int, v: Square) -> Seq<Seq<Square>> {
    g.update(row, g[row].update(col, v))
}

/// Overwriting one cell changes the count of marks of a row by what the
/// cell held and what it holds now.
proof fn lemma_row_marks_update(row: Seq<Square>, j: int, v: Square)
    requires
        0 <= j < row.len(),
    ensures
        row_marks(row.update(j, v)) + (if row[j] != Square::Blank { 1int } else { 0int })
            == row_marks(row) + (if v != Square::Blank { 1int } else { 0int }),
    decreases row.len(),
{
    let u = row.update(j, v);
    if j == row.len() - 1 {
        assert(u.drop_last() =~= row.drop_last());
    } else {
        assert(u.drop_last() =~= row.drop_last().update(j, v));
        lemma_row_marks_update(row.drop_last(), j, v);
    }
}

/// A row holds no more marks than cells.
proof fn lemma_row_marks_le(row: Seq<Square>)
    ensures
        row_marks(row) <= row.len(),
    decreases row.len(),
{
    if row.len() > 0 {
        lemma_row_marks_le(row.drop_last());
    }
}

/// Replacing one row changes the count of marks of the grid by the counts
/// of the two rows.
proof fn lemma_marks_update(g: Seq<Seq<Square>>, i: int, row: Seq<Square>)
    requires
        0 <= i < g.len(),
    ensures
        marks(g.update(i, row)) + row_marks(g[i]) == marks(g) + row_marks(row),
    decreases g.len(),
{
    let u = g.update(i, row);
    if i == g.len() - 1 {
        assert(u.drop_last() =~= g.drop_last());
    } else {
        assert(u.drop_last() =~= g.drop_last().update(i, row));
        lemma_marks_update(g.drop_last(), i, row);
    }
}

/// A grid of rows of `n` cells holds at most `n` marks per row.
proof fn lemma_marks_le(g: Seq<Seq<Square>>, n: nat)
    requires
        forall|i: int| 0 <= i < g.len() ==> #[trigger] g[i].len() == n,
    ensures
        marks(g) <= g.len() * n,
    decreases g.len(),
{
    if g.len() > 0 {
        lemma_marks_le(g.drop_last(), n);
        lemma_row_marks_le(g.last());
        assert((g.len() - 1) * n + n == g.len() * n) by (nonlinear_arith);
    }
}

/// Marking a blank cell adds one to the count of marks, which stays within
/// the number of cells.
proof fn lemma_mark_blank_cell(g: Seq<Seq<Square>>, n: nat, row: int, col: int, v: Square)
    requires
        is_square(g, n),
        0 <= row < n,
        0 <= col < n,
        g[row][col] == Square::Blank,
        v != Square::Blank,
    ensures
        marks(with_cell(g, row, col, v)) == marks(g) + 1,
        marks(g) + 1 <= n * n,
        is_square(with_cell(g, row, col, v), n),
{
    lemma_row_marks_update(g[row], col, v);
    lemma_marks_update(g, row, g[row].update(col, v));
    let h = with_cell(g, row, col, v);
    assert forall|i: int| 0 <= i < h.len() implies #[trigger] h[i].len() == n by {
        assert(g[i].len() == n);
    }
    lemma_marks_le(h, n);
}

/// A lane of blank cells holds no run of marks of positive length.
proof fn lemma_blank_lane_no_win(lane: Seq<Square>, w: int)
    requires
        w >= 1,
        forall|k: int| 0 <= k < lane.len() ==> #[trigger] lane[k] == Square::Blank,
    ensures
        !lane_has_win(lane, w),
{
    assert forall|start: int| !#[trigger] window_won(lane, start, w) by {
        if window_won(lane, start, w) {
            assert(lane[start] != Square::Blank);
        }
    }
}

/// On a fresh board of side `n` no lane holds a run of `w`, for any `w` of
/// at least one, and as no piece stands yet the game is in progress.
pub proof fn lemma_fresh_board_in_progress(n: nat, w: int)
    requires
        1 <= w <= n,
    ensures
        status_of(empty_grid(n), 0, w) == BoardStatus::InProgress,
{
    let g = empty_grid(n);
    assert forall|r: int| 0 <= r < n implies !lane_has_win(#[trigger] row_lane(g, r), w) by {
        lemma_blank_lane_no_win(row_lane(g, r), w);
    }
    assert forall|c: int| 0 <= c < n implies !lane_has_win(#[trigger] column_lane(g, c), w) by {
        lemma_blank_lane_no_win(column_lane(g, c), w);
    }
    assert forall|d: int| 0 <= d <= n - w implies !#[trigger] diagonal_pair_wins(g, d, w) by {
        lemma_blank_lane_no_win(diagonal_lane(g, 0, d), w);
        lemma_blank_lane_no_win(diagonal_lane(g, d, 0), w);
    }
    assert(0 < n * n) by (nonlinear_arith)
        requires
            n >= 1,
    ;
}

/// The turn counter of a well-formed board never exceeds the number of
/// cells.
pub proof fn lemma_turns_within_cells(b: &Board)
    requires
        b.wf(),
    ensures
        b.turns() <= b.side() * b.side(),
{
    lemma_marks_le(b.cells(), b.side());
}

/// Once as many pieces as cells have been placed, no cell is blank, so no
/// placement can succeed, and the status is never in progress.
pub proof fn lemma_full_board(b: &Board, w: int)
    requires
        b.wf(),
        b.turns() == b.side() * b.side(),
    ensures
        forall|i: int, j: int|
            0 <= i < b.side() && 0 <= j < b.side() ==> #[trigger] b.cells()[i][j] != Square::Blank,
        status_of(b.cells(), b.turns(), w) != BoardStatus::InProgress,
{
    assert forall|i: int, j: int|
        0 <= i < b.side() && 0 <= j < b.side() implies #[trigger] b.cells()[i][j] != Square::Blank by {
        if b.cells()[i][j] == Square::Blank {
            lemma_mark_blank_cell(b.cells(), b.side(), i, j, Square::X);
        }
    }
}

/// No cell of a blank grid of `m` rows of side `n` holds a mark.
proof fn lemma_empty_grid_marks(m: nat, n: nat)
    ensures
        marks(Seq::new(m, |i: int| Seq::new(n, |j: int| Square::Blank))) == 0,
    decreases m,
{
    let g = Seq::new(m, |i: int| Seq::new(n, |j: int| Square::Blank));
    if m > 0 {
        lemma_empty_grid_marks((m - 1) as nat, n);
        assert(g.drop_last() =~= Seq::new((m - 1) as nat, |i: int| Seq::new(n, |j: int| Square::Blank)));
        lemma_blank_row_marks(n);
    }
}

/// No cell of a blank row holds a mark.
proof fn lemma_blank_row_marks(n: nat)
    ensures
        row_marks(Seq::new(n, |j: int| Square::Blank)) == 0,
    decreases n,
{
    let row = Seq::new(n, |j: int| Square::Blank);
    if n > 0 {
        lemma_blank_row_marks((n - 1) as nat);
        assert(row.drop_last() =~= Seq::new((n - 1) as nat, |j: int| Square::Blank));
    }
}

} // verus!
