//! The 3x3 game board: cell marks, win detection and the full-board test.

use vstd::prelude::*;

verus! {

/// The occupant of a single cell: empty, or one of the two players'
/// symbols in play for the session. Which glyph each symbol stands for
/// is the caller's bookkeeping; the engine only compares marks.
#[derive(Clone, Copy, PartialEq, Eq, Structural, Debug)]
pub enum Mark {
    Empty,
    A,
    B,
}

/// A 3x3 grid of marks, stored row-major: cell (row, col) lives at
/// index `3 * row + col`.
pub struct Board {
    cells: Vec<Mark>,
}

impl View for Board {
    type V = Seq<Mark>;

    closed spec fn view(&self) -> Seq<Mark> {
        self.cells@
    }
}

/// The board at cell (row, col), both in [0, 3).
pub open spec fn cell(b: Seq<Mark>, row: int, col: int) -> Mark {
    b[3 * row + col]
}

/// Every cell of row `row` holds `m`.
pub open spec fn row_wins(b: Seq<Mark>, m: Mark, row: int) -> bool {
    cell(b, row, 0) == m && cell(b, row, 1) == m && cell(b, row, 2) == m
}

/// Every cell of column `col` holds `m`.
pub open spec fn col_wins(b: Seq<Mark>, m: Mark, col: int) -> bool {
    cell(b, 0, col) == m && cell(b, 1, col) == m && cell(b, 2, col) == m
}

/// Every cell of the main diagonal holds `m`.
pub open spec fn main_diag_wins(b: Seq<Mark>, m: Mark) -> bool {
    cell(b, 0, 0) == m && cell(b, 1, 1) == m && cell(b, 2, 2) == m
}

/// Every cell of the anti-diagonal holds `m`.
pub open spec fn anti_diag_wins(b: Seq<Mark>, m: Mark) -> bool {
    cell(b, 0, 2) == m && cell(b, 1, 1) == m && cell(b, 2, 0) == m
}

/// `m` has completed one of the 8 lines of the grid: a row, a column,
/// or one of the two diagonals.
pub open spec fn wins(b: Seq<Mark>, m: Mark) -> bool {
    ||| row_wins(b, m, 0)
    ||| row_wins(b, m, 1)
    ||| row_wins(b, m, 2)
    ||| col_wins(b, m, 0)
    ||| col_wins(b, m, 1)
    ||| col_wins(b, m, 2)
    ||| main_diag_wins(b, m)
    ||| anti_diag_wins(b, m)
}

/// No cell of the board is empty.
pub open spec fn full(b: Seq<Mark>) -> bool {
    forall|i: int| 0 <= i < 9 ==> b[i] != Mark::Empty
}

impl Board {
    /// The board's structural invariant: exactly 9 cells.
    pub open spec fn wf(&self) -> bool {
        self@.len() == 9
    }

    /// A fresh board with every cell empty.
    pub fn new() -> (b: Board)
        ensures
            b.wf(),
            forall|i: int| 0 <= i < 9 ==> b@[i] == Mark::Empty,
    {
        let mut cells: Vec<Mark> = Vec::new();
        while cells.len() < 9
            invariant
                cells@.len() <= 9,
                forall|i: int| 0 <= i < cells@.len() ==> cells@[i] == Mark::Empty,
            decreases 9 - cells@.len(),
        {
            cells.push(Mark::Empty);
        }
        Board { cells }
    }

    /// The mark at cell (row, col).
    pub fn get(&self, row: usize, col: usize) -> (m: Mark)
        requires
            self.wf(),
            row < 3,
            col < 3,
        ensures
            m == cell(self@, row as int, col as int),
    {
        self.cells[3 * row + col]
    }

    /// Place `m` at cell (row, col); no other cell changes.
    pub fn set(&mut self, row: usize, col: usize, m: Mark)
        requires
            old(self).wf(),
            row < 3,
            col < 3,
        ensures
            final(self).wf(),
            final(self)@ == old(self)@.update(3 * row + col, m),
    {
        self.cells.set(3 * row + col, m);
    }

    /// The mark at flat index `i` in row-major order.
    pub(crate) fn get_idx(&self, i: usize) -> (m: Mark)
        requires
            self.wf(),
            i < 9,
        ensures
            m == self@[i as int],
    {
        self.cells[i]
    }

    /// Place `m` at flat index `i`; no other cell changes.
    pub(crate) fn set_idx(&mut self, i: usize, m: Mark)
        requires
            old(self).wf(),
            i < 9,
        ensures
            final(self).wf(),
            final(self)@ == old(self)@.update(i as int, m),
    {
        self.cells.set(i, m);
    }
}

/// Reset every cell of the board to empty, as at the start of a round.
pub fn start_table(board: &mut Board)
    ensures
        final(board).wf(),
        forall|i: int| 0 <= i < 9 ==> final(board)@[i] == Mark::Empty,
{
    *board = Board::new();
}

/// Whether `player` has completed a row, a column, or a diagonal.
pub fn check_victory(board: &Board, player: Mark) -> (r: bool)
    requires
        board.wf(),
    ensures
        r == wins(board@, player),
{
    let b = &board.cells;
    (b[0] == player && b[1] == player && b[2] == player)
        || (b[3] == player && b[4] == player && b[5] == player)
        || (b[6] == player && b[7] == player && b[8] == player)
        || (b[0] == player && b[3] == player && b[6] == player)
        || (b[1] == player && b[4] == player && b[7] == player)
        || (b[2] == player && b[5] == player && b[8] == player)
        || (b[0] == player && b[4] == player && b[8] == player)
        || (b[2] == player && b[4] == player && b[6] == player)
}

/// Whether the board is full. A full board that also holds a completed
/// line is not a draw: callers must test `check_victory` first, as the
/// two predicates are not mutually exclusive.
pub fn check_draw(board: &Board) -> (r: bool)
    requires
        board.wf(),
    ensures
        r == full(board@),
{
    let mut i: usize = 0;
    while i < 9
        invariant
            board.wf(),
            i <= 9,
            forall|j: int| 0 <= j < i ==> board@[j] != Mark::Empty,
        decreases 9 - i,
    {
        if board.get_idx(i) == Mark::Empty {
            return false;
        }
        i += 1;
    }
    true
}

/// A completed line for `m` is exactly one of the 8 lines of the grid:
/// one of the 3 rows, one of the 3 columns, or one of the 2 diagonals.
pub proof fn lemma_wins_characterization(b: Seq<Mark>, m: Mark)
    ensures
        wins(b, m) <==> ((exists|r: int| 0 <= r < 3 && row_wins(b, m, r))
            || (exists|c: int| 0 <= c < 3 && col_wins(b, m, c))
            || main_diag_wins(b, m)
            || anti_diag_wins(b, m)),
{
    if wins(b, m) {
        if row_wins(b, m, 0) {
            assert(exists|r: int| 0 <= r < 3 && row_wins(b, m, r));
        } else if row_wins(b, m, 1) {
            assert(exists|r: int| 0 <= r < 3 && row_wins(b, m, r));
        } else if row_wins(b, m, 2) {
            assert(exists|r: int| 0 <= r < 3 && row_wins(b, m, r));
        } else if col_wins(b, m, 0) {
            assert(exists|c: int| 0 <= c < 3 && col_wins(b, m, c));
        } else if col_wins(b, m, 1) {
            assert(exists|c: int| 0 <= c < 3 && col_wins(b, m, c));
        } else if col_wins(b, m, 2) {
            assert(exists|c: int| 0 <= c < 3 && col_wins(b, m, c));
        }
    }
    if exists|r: int| 0 <= r < 3 && row_wins(b, m, r) {
        let r = choose|r: int| 0 <= r < 3 && row_wins(b, m, r);
        assert(r == 0 || r == 1 || r == 2);
    }
    if exists|c: int| 0 <= c < 3 && col_wins(b, m, c) {
        let c = choose|c: int| 0 <= c < 3 && col_wins(b, m, c);
        assert(c == 0 || c == 1 || c == 2);
    }
}

} // verus!
