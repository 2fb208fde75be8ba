//! The board: a 3x3 grid of cells, its queries and its single mutation.

use vstd::prelude::*;

verus! {

/// Number of rows, and of columns.
pub const BOARD_SIZE: usize = 3;

/// State of one square: empty, or marked by the human (`X`) or by the engine
/// (`O`).
#[derive(Debug, Clone, Copy, PartialEq, Eq, Structural)]
pub enum Cell {
    Empty,
    X,
    O,
}

/// The 3x3 grid. Its mathematical model is the sequence of its nine cells in
/// row-major order.
#[derive(Debug, Clone, Copy, PartialEq, Eq)]
pub struct Board {
    cells: [[Cell; 3]; 3],
}

/// Position of the square `(row, col)` in the row-major sequence.
pub open spec fn cell_index(row: int, col: int) -> int {
    3 * row + col
}

/// The square `(row, col)` that sits at position `index` of the row-major
/// sequence.
pub open spec fn position_of(index: int) -> (usize, usize) {
    ((index / 3) as usize, (index % 3) as usize)
}

/// One for an empty cell, zero for a marked one.
pub open spec fn vacancy(cell: Cell) -> nat {
    if cell == Cell::Empty {
        1
    } else {
        0
    }
}

/// Number of empty cells among the nine.
pub open spec fn count_empty(cells: Seq<Cell>) -> nat {
    vacancy(cells[0]) + vacancy(cells[1]) + vacancy(cells[2]) + vacancy(cells[3]) + vacancy(
        cells[4],
    ) + vacancy(cells[5]) + vacancy(cells[6]) + vacancy(cells[7]) + vacancy(cells[8])
}

/// No cell is empty.
pub open spec fn grid_full(cells: Seq<Cell>) -> bool {
    forall|i: int| 0 <= i < 9 ==> cells[i] != Cell::Empty
}

/// The empty squares among the first `n` cells, in row-major order.
pub open spec fn empty_before(cells: Seq<Cell>, n: int) -> Seq<(usize, usize)>
    decreases n,
{
    if n <= 0 {
        Seq::empty()
    } else if cells[n - 1] == Cell::Empty {
        empty_before(cells, n - 1).push(position_of(n - 1))
    } else {
        empty_before(cells, n - 1)
    }
}

/// All empty squares, row ascending, then column ascending.
pub open spec fn empty_cells(cells: Seq<Cell>) -> Seq<(usize, usize)> {
    empty_before(cells, 9)
}

/// The three cells at positions `a`, `b`, `c` carry one and the same mark.
pub open spec fn same_mark(cells: Seq<Cell>, a: int, b: int, c: int) -> bool {
    cells[a] != Cell::Empty && cells[a] == cells[b] && cells[b] == cells[c]
}

/// Row `row` is filled by one player.
pub open spec fn row_complete(cells: Seq<Cell>, row: int) -> bool {
    same_mark(cells, 3 * row, 3 * row + 1, 3 * row + 2)
}

/// Column `col` is filled by one player.
pub open spec fn col_complete(cells: Seq<Cell>, col: int) -> bool {
    same_mark(cells, col, col + 3, col + 6)
}

/// The diagonal from the top left to the bottom right is filled by one player.
pub open spec fn diagonal_complete(cells: Seq<Cell>) -> bool {
    same_mark(cells, 0, 4, 8)
}

/// The diagonal from the top right to the bottom left is filled by one player.
pub open spec fn antidiagonal_complete(cells: Seq<Cell>) -> bool {
    same_mark(cells, 2, 4, 6)
}

/// The mark on the first complete line, looking at the rows from the top, then
/// at the columns from the left, then at the main diagonal, then at the other
/// one; `None` when no line is complete.
pub open spec fn winner_of(cells: Seq<Cell>) -> Option<Cell> {
    if row_complete(cells, 0) {
        Some(cells[0])
    } else if row_complete(cells, 1) {
        Some(cells[3])
    } else if row_complete(cells, 2) {
        Some(cells[6])
    } else if col_complete(cells, 0) {
        Some(cells[0])
    } else if col_complete(cells, 1) {
        Some(cells[1])
    } else if col_complete(cells, 2) {
        Some(cells[2])
    } else if diagonal_complete(cells) {
        Some(cells[0])
    } else if antidiagonal_complete(cells) {
        Some(cells[2])
    } else {
        None
    }
}

/// The game has ended: a line is complete or no cell is left.
pub open spec fn game_over(cells: Seq<Cell>) -> bool {
    winner_of(cells) is Some || grid_full(cells)
}

/// Some row, column or diagonal is filled by one player.
pub open spec fn some_line_complete(cells: Seq<Cell>) -> bool {
    ||| exists|row: int| 0 <= row < 3 && row_complete(cells, row)
    ||| exists|col: int| 0 <= col < 3 && col_complete(cells, col)
    ||| diagonal_complete(cells)
    ||| antidiagonal_complete(cells)
}

/// There is a winner exactly when some row, column or diagonal carries three
/// equal marks, and the winner is never `Cell::Empty`.
pub proof fn lemma_winner_iff_line(cells: Seq<Cell>)
    ensures
        winner_of(cells) is Some <==> some_line_complete(cells),
        winner_of(cells) != Some(Cell::Empty),
{
    if some_line_complete(cells) {
        if exists|row: int| 0 <= row < 3 && row_complete(cells, row) {
            let row = choose|row: int| 0 <= row < 3 && row_complete(cells, row);
            assert(row == 0 || row == 1 || row == 2);
        } else if exists|col: int| 0 <= col < 3 && col_complete(cells, col) {
            let col = choose|col: int| 0 <= col < 3 && col_complete(cells, col);
            assert(col == 0 || col == 1 || col == 2);
        }
    }
}

/// What `empty_before` lists: each entry is an empty square among the first
/// `n`, every such square is listed, and the entries ascend in row-major
/// order.
proof fn lemma_empty_before(cells: Seq<Cell>, n: int)
    requires
        0 <= n <= 9,
    ensures
        empty_before(cells, n).len() <= n,
        forall|k: int|
            0 <= k < empty_before(cells, n).len() ==> {
                let p = #[trigger] empty_before(cells, n)[k];
                &&& p.0 < 3
                &&& p.1 < 3
                &&& cell_index(p.0 as int, p.1 as int) < n
                &&& cells[cell_index(p.0 as int, p.1 as int)] == Cell::Empty
            },
        forall|i: int|
            0 <= i < n && cells[i] == Cell::Empty ==> empty_before(cells, n).contains(
                #[trigger] position_of(i),
            ),
        forall|j: int, k: int|
            0 <= j < k < empty_before(cells, n).len() ==> cell_index(
                (#[trigger] empty_before(cells, n)[j]).0 as int,
                empty_before(cells, n)[j].1 as int,
            ) < cell_index(
                (#[trigger] empty_before(cells, n)[k]).0 as int,
                empty_before(cells, n)[k].1 as int,
            ),
    decreases n,
{
    if n > 0 {
        lemma_empty_before(cells, n - 1);
        let before = empty_before(cells, n - 1);
        let now = empty_before(cells, n);
        assert forall|i: int| 0 <= i < n && cells[i] == Cell::Empty implies now.contains(
            #[trigger] position_of(i),
        ) by {
            if i < n - 1 {
                let k = choose|k: int| 0 <= k < before.len() && before[k] == position_of(i);
                assert(now[k] == position_of(i));
            } else {
                assert(now[now.len() - 1] == position_of(i));
            }
        }
    }
}

/// `empty_cells` lists as many squares as there are empty cells.
proof fn lemma_empty_cells_len(cells: Seq<Cell>)
    ensures
        empty_cells(cells).len() == count_empty(cells),
{
    reveal_with_fuel(empty_before, 10);
}

/// What `empty_cells` lists: exactly the empty squares of the grid, each
/// once, row ascending, then column ascending.
pub proof fn lemma_empty_cells(cells: Seq<Cell>)
    ensures
        forall|k: int|
            0 <= k < empty_cells(cells).len() ==> {
                let p = #[trigger] empty_cells(cells)[k];
                &&& p.0 < 3
                &&& p.1 < 3
                &&& cells[cell_index(p.0 as int, p.1 as int)] == Cell::Empty
            },
        forall|square: (usize, usize)|
            square.0 < 3 && square.1 < 3 && cells[cell_index(square.0 as int, square.1 as int)]
                == Cell::Empty ==> #[trigger] empty_cells(cells).contains(square),
        forall|j: int, k: int|
            0 <= j < k < empty_cells(cells).len() ==> cell_index(
                (#[trigger] empty_cells(cells)[j]).0 as int,
                empty_cells(cells)[j].1 as int,
            ) < cell_index(
                (#[trigger] empty_cells(cells)[k]).0 as int,
                empty_cells(cells)[k].1 as int,
            ),
        empty_cells(cells).len() == count_empty(cells),
        empty_cells(cells).len() == 0 <==> grid_full(cells),
{
    lemma_empty_before(cells, 9);
    lemma_empty_cells_len(cells);
    assert forall|square: (usize, usize)|
        square.0 < 3 && square.1 < 3 && cells[cell_index(square.0 as int, square.1 as int)]
            == Cell::Empty implies #[trigger] empty_cells(cells).contains(square) by {
        assert(position_of(cell_index(square.0 as int, square.1 as int)) == square);
    }
    if empty_cells(cells).len() == 0 {
        assert forall|i: int| 0 <= i < 9 implies cells[i] != Cell::Empty by {
            if cells[i] == Cell::Empty {
                assert(empty_cells(cells).contains(position_of(i)));
            }
        }
    } else {
        let p = empty_cells(cells)[0];
        assert(cells[cell_index(p.0 as int, p.1 as int)] == Cell::Empty);
    }
}

/// How a cell is shown: a blank for an empty one, else the mark's letter.
pub open spec fn cell_text(cell: Cell) -> Seq<char> {
    match cell {
        Cell::Empty => " "@,
        Cell::X => "X"@,
        Cell::O => "O"@,
    }
}

/// The label of row `row`.
pub open spec fn row_label(row: int) -> Seq<char> {
    if row == 0 {
        "0 "@
    } else if row == 1 {
        "1 "@
    } else {
        "2 "@
    }
}

/// The line that shows row `row`: its label, then its three cells with bars
/// between them.
pub open spec fn row_text(cells: Seq<Cell>, row: int) -> Seq<char> {
    row_label(row) + cell_text(cells[3 * row]) + " | "@ + cell_text(cells[3 * row + 1]) + " | "@
        + cell_text(cells[3 * row + 2]) + "\n"@
}

/// The picture of a grid: the column numbers, then the three rows with a
/// rule between them.
pub open spec fn board_text(cells: Seq<Cell>) -> Seq<char> {
    "  0   1   2\n"@ + row_text(cells, 0) + "  ---------\n"@ + row_text(cells, 1)
        + "  ---------\n"@ + row_text(cells, 2)
}

/// The picture of a grid down to, but without, row `rows`.
spec fn board_text_above(cells: Seq<Cell>, rows: int) -> Seq<char> {
    if rows <= 0 {
        "  0   1   2\n"@
    } else if rows == 1 {
        "  0   1   2\n"@ + row_text(cells, 0) + "  ---------\n"@
    } else if rows == 2 {
        "  0   1   2\n"@ + row_text(cells, 0) + "  ---------\n"@ + row_text(cells, 1)
            + "  ---------\n"@
    } else {
        board_text(cells)
    }
}

impl Cell {
    /// The cell as text: `" "`, `"X"` or `"O"`.
    pub fn to_string(&self) -> (text: String)
        ensures
            text@ == cell_text(*self),
    {
        match self {
            Cell::Empty => String::from_str(" "),
            Cell::X => String::from_str("X"),
            Cell::O => String::from_str("O"),
        }
    }
}

impl View for Board {
    type V = Seq<Cell>;

    closed spec fn view(&self) -> Seq<Cell> {
        Seq::new(9, |i: int| self.cells[i / 3][i % 3])
    }
}

impl Board {
    /// The cell at `(row, col)`.
    pub open spec fn at(&self, row: int, col: int) -> Cell {
        self@[cell_index(row, col)]
    }

    /// Every board has exactly nine cells.
    pub proof fn lemma_nine_cells(&self)
        ensures
            self@.len() == 9,
    {
    }

    /// An empty board.
    pub fn new() -> (board: Board)
        ensures
            board@ == Seq::new(9, |i: int| Cell::Empty),
    {
        Board { cells: [[Cell::Empty; 3]; 3] }
    }

    /// The cell at `(row, col)`, or `None` outside the grid.
    pub fn get(&self, row: usize, col: usize) -> (cell: Option<Cell>)
        ensures
            cell == if row < 3 && col < 3 {
                Some(self.at(row as int, col as int))
            } else {
                None
            },
    {
        if row < BOARD_SIZE && col < BOARD_SIZE {
            Some(self.cells[row][col])
        } else {
            None
        }
    }

    /// Puts `cell` on the square `(row, col)` if that square lies on the grid
    /// and is empty, and says whether it did. A refused call changes nothing,
    /// and no call changes a cell that holds a mark.
    pub fn set(&mut self, row: usize, col: usize, cell: Cell) -> (placed: bool)
        ensures
            placed == (row < 3 && col < 3 && old(self).at(row as int, col as int) == Cell::Empty),
            placed ==> final(self)@ == old(self)@.update(cell_index(row as int, col as int), cell),
            !placed ==> *final(self) == *old(self),
            forall|i: int|
                0 <= i < 9 && old(self)@[i] != Cell::Empty ==> final(self)@[i] == old(self)@[i],
    {
        if row < BOARD_SIZE && col < BOARD_SIZE && self.cells[row][col] == Cell::Empty {
            self.cells[row][col] = cell;
            true
        } else {
            false
        }
    }

    /// Whether `(row, col)` lies on the grid and is empty.
    pub fn is_empty(&self, row: usize, col: usize) -> (empty: bool)
        ensures
            empty == (row < 3 && col < 3 && self.at(row as int, col as int) == Cell::Empty),
    {
        match self.get(row, col) {
            Some(Cell::Empty) => true,
            _ => false,
        }
    }

    /// Whether no cell is empty.
    pub fn is_full(&self) -> (full: bool)
        ensures
            full == grid_full(self@),
    {
        for row in 0..BOARD_SIZE
            invariant
                forall|i: int| 0 <= i < 3 * row ==> self@[i] != Cell::Empty,
        {
            for col in 0..BOARD_SIZE
                invariant
                    row < 3,
                    forall|i: int| 0 <= i < 3 * row + col ==> self@[i] != Cell::Empty,
            {
                if self.cells[row][col] == Cell::Empty {
                    assert(self@[3 * row + col] == Cell::Empty);
                    return false;
                }
            }
        }
        true
    }

    /// The empty squares, row ascending, then column ascending.
    pub fn empty_positions(&self) -> (positions: Vec<(usize, usize)>)
        ensures
            positions@ == empty_cells(self@),
    {
        let mut positions = Vec::new();
        for row in 0..BOARD_SIZE
            invariant
                positions@ == empty_before(self@, 3 * row),
        {
            for col in 0..BOARD_SIZE
                invariant
                    row < 3,
                    positions@ == empty_before(self@, 3 * row + col),
            {
                if self.cells[row][col] == Cell::Empty {
                    positions.push((row, col));
                }
            }
        }
        positions
    }

    /// The mark that fills a line, if any does; with several complete lines,
    /// the first in the order rows, columns, main diagonal, other diagonal.
    pub fn check_winner(&self) -> (winner: Option<Cell>)
        ensures
            winner == winner_of(self@),
    {
        for row in 0..BOARD_SIZE
            invariant
                forall|r: int| 0 <= r < row ==> !row_complete(self@, r),
        {
            if self.cells[row][0] != Cell::Empty && self.cells[row][0] == self.cells[row][1]
                && self.cells[row][1] == self.cells[row][2] {
                assert(row_complete(self@, row as int));
                return Some(self.cells[row][0]);
            }
        }
        for col in 0..BOARD_SIZE
            invariant
                forall|r: int| 0 <= r < 3 ==> !row_complete(self@, r),
                forall|c: int| 0 <= c < col ==> !col_complete(self@, c),
        {
            if self.cells[0][col] != Cell::Empty && self.cells[0][col] == self.cells[1][col]
                && self.cells[1][col] == self.cells[2][col] {
                assert(col_complete(self@, col as int));
                return Some(self.cells[0][col]);
            }
        }
        if self.cells[0][0] != Cell::Empty && self.cells[0][0] == self.cells[1][1]
            && self.cells[1][1] == self.cells[2][2] {
            return Some(self.cells[0][0]);
        }
        if self.cells[0][2] != Cell::Empty && self.cells[0][2] == self.cells[1][1]
            && self.cells[1][1] == self.cells[2][0] {
            return Some(self.cells[0][2]);
        }
        None
    }

    /// Whether the game has ended: someone has won or the board is full.
    pub fn is_game_over(&self) -> (over: bool)
        ensures
            over == game_over(self@),
            over == (winner_of(self@) is Some || grid_full(self@)),
    {
        self.check_winner().is_some() || self.is_full()
    }

    /// Appends the line that shows row `row` to `text`.
    fn write_row(&self, text: &mut String, row: usize)
        requires
            row < 3,
        ensures
            final(text)@ == old(text)@ + row_text(self@, row as int),
    {
        let label = if row == 0 {
            "0 "
        } else if row == 1 {
            "1 "
        } else {
            "2 "
        };
        let left = self.cells[row][0].to_string();
        let middle = self.cells[row][1].to_string();
        let right = self.cells[row][2].to_string();
        let ghost before = text@;
        text.append(label);
        text.append(left.as_str());
        text.append(" | ");
        text.append(middle.as_str());
        text.append(" | ");
        text.append(right.as_str());
        text.append("\n");
        assert(text@ == before + (row_label(row as int) + left@ + " | "@ + middle@ + " | "@ + right@
            + "\n"@));
    }

    /// The picture of the board: column numbers on top, a label before each
    /// row, bars between the cells and a rule between the rows.
    pub fn to_string(&self) -> (text: String)
        ensures
            text@ == board_text(self@),
    {
        let mut text = String::from_str("  0   1   2\n");
        for row in 0..BOARD_SIZE
            invariant
                text@ == board_text_above(self@, row as int),
        {
            self.write_row(&mut text, row);
            if row < BOARD_SIZE - 1 {
                text.append("  ---------\n");
            }
        }
        text
    }
}

impl Default for Board {
    fn default() -> (board: Board)
        ensures
            board@ == Seq::new(9, |i: int| Cell::Empty),
    {
        Board::new()
    }
}

} // verus!
