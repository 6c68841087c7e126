//! Line and terminal evaluation. A line (row, column, or diagonal)
//! wins for a player when every one of its cells carries that
//! player's mark; a board is terminal when some line has won or no
//! blank cell remains.

use vstd::prelude::*;
use crate::board::{Board, Cell, count_blanks, grid_blanks, grid_wf};

verus! {

/// Every cell of the line carries `p`'s mark (and the line is
/// non-empty).
pub open spec fn line_wins(l: Seq<Cell>, p: Cell) -> bool {
    &&& l.len() > 0
    &&& forall|i: int| 0 <= i < l.len() ==> l[i] == p
}

/// The ternary score of one line: +1 when it wins for A, -1 when it
/// wins for B, 0 otherwise.
pub open spec fn line_score(l: Seq<Cell>) -> int {
    if line_wins(l, Cell::MarkA) {
        1
    } else if line_wins(l, Cell::MarkB) {
        -1
    } else {
        0
    }
}

/// Column `c` of the grid, top to bottom.
pub open spec fn col_seq(g: Seq<Seq<Cell>>, c: int) -> Seq<Cell> {
    Seq::new(g.len(), |i: int| g[i][c])
}

/// The descending diagonal: the cells `g[i][i]`.
pub open spec fn diag_desc_seq(g: Seq<Seq<Cell>>) -> Seq<Cell> {
    Seq::new(g.len(), |i: int| g[i][i])
}

/// The ascending diagonal: the cells `g[n-1-i][i]`.
pub open spec fn diag_asc_seq(g: Seq<Seq<Cell>>) -> Seq<Cell> {
    Seq::new(g.len(), |i: int| g[g.len() - 1 - i][i])
}

/// The first non-zero row score at index `i` or beyond, else 0.
pub open spec fn rows_score_from(g: Seq<Seq<Cell>>, i: int) -> int
    decreases g.len() - i,
{
    if i < 0 || i >= g.len() {
        0
    } else if line_score(g[i]) != 0 {
        line_score(g[i])
    } else {
        rows_score_from(g, i + 1)
    }
}

/// The first non-zero column score at index `c` or beyond, else 0.
pub open spec fn cols_score_from(g: Seq<Seq<Cell>>, c: int) -> int
    decreases g.len() - c,
{
    if c < 0 || c >= g.len() {
        0
    } else if line_score(col_seq(g, c)) != 0 {
        line_score(col_seq(g, c))
    } else {
        cols_score_from(g, c + 1)
    }
}

/// The score of the first decided line, scanning all rows, then all
/// columns, then the descending and ascending diagonals; 0 when no
/// line is decided.
pub open spec fn scan_value(g: Seq<Seq<Cell>>) -> int {
    if rows_score_from(g, 0) != 0 {
        rows_score_from(g, 0)
    } else if cols_score_from(g, 0) != 0 {
        cols_score_from(g, 0)
    } else if line_score(diag_desc_seq(g)) != 0 {
        line_score(diag_desc_seq(g))
    } else {
        line_score(diag_asc_seq(g))
    }
}

/// A position is terminal when some line is decided or the board is
/// full.
pub open spec fn is_term(g: Seq<Seq<Cell>>) -> bool {
    scan_value(g) != 0 || grid_blanks(g) == 0
}

/// The utility of a terminal position: +1 when A has won, -1 when B
/// has won, 0 for a draw (it is also 0 on non-terminal positions).
pub open spec fn term_value(g: Seq<Seq<Cell>>) -> int {
    scan_value(g)
}

/// An independent, order-free description of a won board: some row,
/// some column, or one of the two diagonals is entirely `p`'s marks.
pub open spec fn has_win(g: Seq<Seq<Cell>>, p: Cell) -> bool {
    ||| exists|i: int| 0 <= i < g.len() && line_wins(#[trigger] g[i], p)
    ||| exists|c: int| 0 <= c < g.len() && line_wins(#[trigger] col_seq(g, c), p)
    ||| line_wins(diag_desc_seq(g), p)
    ||| line_wins(diag_asc_seq(g), p)
}

proof fn lemma_rows_score_cases(g: Seq<Seq<Cell>>, i: int)
    requires
        0 <= i,
    ensures
        -1 <= rows_score_from(g, i) <= 1,
        rows_score_from(g, i) == 0 ==> forall|j: int|
            i <= j < g.len() ==> line_score(#[trigger] g[j]) == 0,
        rows_score_from(g, i) != 0 ==> exists|j: int|
            i <= j < g.len() && line_score(#[trigger] g[j]) == rows_score_from(g, i),
    decreases g.len() - i,
{
    if i < g.len() {
        lemma_rows_score_cases(g, i + 1);
    }
}

proof fn lemma_cols_score_cases(g: Seq<Seq<Cell>>, c: int)
    requires
        0 <= c,
    ensures
        -1 <= cols_score_from(g, c) <= 1,
        cols_score_from(g, c) == 0 ==> forall|j: int|
            c <= j < g.len() ==> line_score(#[trigger] col_seq(g, j)) == 0,
        cols_score_from(g, c) != 0 ==> exists|j: int|
            c <= j < g.len() && line_score(#[trigger] col_seq(g, j)) == cols_score_from(g, c),
    decreases g.len() - c,
{
    if c < g.len() {
        lemma_cols_score_cases(g, c + 1);
    }
}

/// The utility of any position is one of -1, 0, +1.
pub proof fn lemma_scan_value_range(g: Seq<Seq<Cell>>)
    ensures
        -1 <= scan_value(g) <= 1,
{
    lemma_rows_score_cases(g, 0);
    lemma_cols_score_cases(g, 0);
}

/// The scanning terminal evaluator agrees with the brute-force,
/// order-free line check `has_win`: a position is terminal exactly
/// when some line has won or no blank remains, a non-zero scan value
/// names a player who has in fact won, a zero scan value means
/// neither player has any full line, and when exactly one player has
/// a win the scan value is that player's score. (When a board that no
/// play could reach holds full lines of both players, the scan value
/// is the score of the first such line in scan order.)
pub proof fn lemma_terminal_matches_line_scan(g: Seq<Seq<Cell>>)
    requires
        grid_wf(g),
    ensures
        is_term(g) == (has_win(g, Cell::MarkA) || has_win(g, Cell::MarkB) || grid_blanks(g)
            == 0),
        scan_value(g) == 1 ==> has_win(g, Cell::MarkA),
        scan_value(g) == -1 ==> has_win(g, Cell::MarkB),
        scan_value(g) == 0 ==> !has_win(g, Cell::MarkA) && !has_win(g, Cell::MarkB),
        has_win(g, Cell::MarkA) && !has_win(g, Cell::MarkB) ==> scan_value(g) == 1,
        has_win(g, Cell::MarkB) && !has_win(g, Cell::MarkA) ==> scan_value(g) == -1,
{
    lemma_rows_score_cases(g, 0);
    lemma_cols_score_cases(g, 0);
    if scan_value(g) == 0 {
        assert(!has_win(g, Cell::MarkA) && !has_win(g, Cell::MarkB));
    }
}

/// Returns whether a line of length N is all A or all B marks:
/// 1 when A wins the line, -1 when B wins it, 0 when neither does.
pub fn array_scores(line: &Vec<Cell>) -> (score: i8)
    requires
        line@.len() >= 1,
    ensures
        score as int == line_score(line@),
{
    let n = line.len();
    let first = line[0];
    if first == Cell::Empty {
        return 0;
    }
    let mut i: usize = 1;
    while i < n
        invariant
            n == line@.len(),
            n >= 1,
            1 <= i <= n,
            first == line@[0],
            first != Cell::Empty,
            forall|k: int| 0 <= k < i ==> line@[k] == first,
        decreases n - i,
    {
        if line[i] != first {
            return 0;
        }
        i = i + 1;
    }
    if first == Cell::MarkA {
        1
    } else {
        -1
    }
}

/// Returns column `col` of the board, top to bottom.
pub fn get_col(board: &Board, col: usize) -> (line: Vec<Cell>)
    requires
        board.wf(),
        col < board@.len(),
    ensures
        line@ == col_seq(board@, col as int),
{
    let n = board.size();
    let mut line: Vec<Cell> = Vec::new();
    let mut i: usize = 0;
    while i < n
        invariant
            board.wf(),
            n == board@.len(),
            col < n,
            i <= n,
            line@.len() == i,
            forall|k: int| 0 <= k < i ==> line@[k] == board@[k][col as int],
        decreases n - i,
    {
        line.push(board.get(i, col));
        i = i + 1;
    }
    assert(line@ =~= col_seq(board@, col as int));
    line
}

/// Returns the descending diagonal (top-left to bottom-right).
pub fn get_diag_descending(board: &Board) -> (line: Vec<Cell>)
    requires
        board.wf(),
    ensures
        line@ == diag_desc_seq(board@),
{
    let n = board.size();
    let mut line: Vec<Cell> = Vec::new();
    let mut i: usize = 0;
    while i < n
        invariant
            board.wf(),
            n == board@.len(),
            i <= n,
            line@.len() == i,
            forall|k: int| 0 <= k < i ==> line@[k] == board@[k][k],
        decreases n - i,
    {
        line.push(board.get(i, i));
        i = i + 1;
    }
    assert(line@ =~= diag_desc_seq(board@));
    line
}

/// Returns the ascending diagonal (bottom-left to top-right).
pub fn get_diag_ascending(board: &Board) -> (line: Vec<Cell>)
    requires
        board.wf(),
    ensures
        line@ == diag_asc_seq(board@),
{
    let n = board.size();
    let mut line: Vec<Cell> = Vec::new();
    let mut i: usize = 0;
    while i < n
        invariant
            board.wf(),
            n == board@.len(),
            i <= n,
            line@.len() == i,
            forall|k: int| 0 <= k < i ==> line@[k] == board@[n - 1 - k][k],
        decreases n - i,
    {
        line.push(board.get(n - 1 - i, i));
        i = i + 1;
    }
    assert(line@ =~= diag_asc_seq(board@));
    line
}

/// Checks if a board is in a game-ending state: `(false, 0)` when it
/// is not; `(true, 1)` when A has a full line, `(true, -1)` when B
/// has one, `(true, 0)` on a full board with no winner.
pub fn utility(board: &Board) -> (r: (bool, i8))
    requires
        board.wf(),
    ensures
        r.0 == is_term(board@),
        r.1 as int == term_value(board@),
{
    let g = Ghost(board@);
    let n = board.size();

    // Rows.
    let mut i: usize = 0;
    while i < n
        invariant
            board.wf(),
            g@ == board@,
            n == g@.len(),
            i <= n,
            rows_score_from(g@, 0) == rows_score_from(g@, i as int),
        decreases n - i,
    {
        let score = array_scores(board.row(i));
        if score != 0 {
            assert(rows_score_from(g@, i as int) == line_score(g@[i as int]));
            return (true, score);
        }
        i = i + 1;
    }
    assert(rows_score_from(g@, 0) == 0);

    // Columns.
    let mut c: usize = 0;
    while c < n
        invariant
            board.wf(),
            g@ == board@,
            n == g@.len(),
            c <= n,
            rows_score_from(g@, 0) == 0,
            cols_score_from(g@, 0) == cols_score_from(g@, c as int),
        decreases n - c,
    {
        let col = get_col(board, c);
        assert(col@.len() >= 1);
        let score = array_scores(&col);
        if score != 0 {
            assert(cols_score_from(g@, c as int) == line_score(col_seq(g@, c as int)));
            return (true, score);
        }
        c = c + 1;
    }
    assert(cols_score_from(g@, 0) == 0);

    // Diagonals.
    let diag = get_diag_descending(board);
    let score = array_scores(&diag);
    if score != 0 {
        return (true, score);
    }
    let diag = get_diag_ascending(board);
    let score = array_scores(&diag);
    if score != 0 {
        return (true, score);
    }

    // No line is decided; the board is terminal only if it is full.
    if count_blanks(board) == 0 {
        (true, 0)
    } else {
        (false, 0)
    }
}

} // verus!
