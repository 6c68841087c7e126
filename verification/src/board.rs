//! The board model: a square grid of three-valued cells, stored
//! row-major as a vector of rows. The side length is chosen at
//! construction time; a zero-sized board is rejected there.

use vstd::prelude::*;

verus! {

/// One cell of the board: empty, or marked by one of the two players.
/// Player A is the maximizer, player B the minimizer.
#[derive(Clone, Copy, PartialEq, Eq, Structural, Debug)]
pub enum Cell {
    Empty,
    MarkA,
    MarkB,
}

/// A grid is well formed when it is non-empty and square: every row
/// is exactly as long as the list of rows.
pub open spec fn grid_wf(g: Seq<Seq<Cell>>) -> bool {
    &&& g.len() >= 1
    &&& forall|i: int| 0 <= i < g.len() ==> (#[trigger] g[i]).len() == g.len()
}

/// The grid of side `n` with every cell empty.
pub open spec fn empty_grid(n: int) -> Seq<Seq<Cell>> {
    Seq::new(n as nat, |i: int| Seq::new(n as nat, |j: int| Cell::Empty))
}

/// 1 for an empty cell, 0 otherwise.
pub open spec fn cell_blank(c: Cell) -> nat {
    if c == Cell::Empty {
        1
    } else {
        0
    }
}

/// How many cells of one row are empty.
pub open spec fn row_blanks(row: Seq<Cell>) -> nat
    decreases row.len(),
{
    if row.len() == 0 {
        0
    } else {
        row_blanks(row.drop_last()) + cell_blank(row.last())
    }
}

/// How many cells of the whole grid are empty.
pub open spec fn grid_blanks(g: Seq<Seq<Cell>>) -> nat
    decreases g.len(),
{
    if g.len() == 0 {
        0
    } else {
        grid_blanks(g.drop_last()) + row_blanks(g.last())
    }
}

/// The grid after writing `p` at row `r`, column `c`.
pub open spec fn place(g: Seq<Seq<Cell>>, r: int, c: int, p: Cell) -> Seq<Seq<Cell>> {
    g.update(r, g[r].update(c, p))
}

/// Overwriting one cell changes the blank count of the row by the
/// difference of the two cells' blank contributions.
pub proof fn lemma_row_blanks_update(row: Seq<Cell>, j: int, v: Cell)
    requires
        0 <= j < row.len(),
    ensures
        row_blanks(row.update(j, v)) + cell_blank(row[j]) == row_blanks(row) + cell_blank(v),
    decreases row.len(),
{
    let up = row.update(j, v);
    if j == row.len() - 1 {
        assert(up.drop_last() =~= row.drop_last());
    } else {
        lemma_row_blanks_update(row.drop_last(), j, v);
        assert(up.drop_last() =~= row.drop_last().update(j, v));
    }
}

/// Replacing one row changes the blank count of the grid by the
/// difference of the two rows' blank counts.
pub proof fn lemma_grid_blanks_update(g: Seq<Seq<Cell>>, i: int, row: Seq<Cell>)
    requires
        0 <= i < g.len(),
    ensures
        grid_blanks(g.update(i, row)) + row_blanks(g[i]) == grid_blanks(g) + row_blanks(row),
    decreases g.len(),
{
    let up = g.update(i, row);
    if i == g.len() - 1 {
        assert(up.drop_last() =~= g.drop_last());
    } else {
        lemma_grid_blanks_update(g.drop_last(), i, row);
        assert(up.drop_last() =~= g.drop_last().update(i, row));
    }
}

/// Marking an empty cell removes exactly one blank.
pub proof fn lemma_place_blanks(g: Seq<Seq<Cell>>, r: int, c: int, p: Cell)
    requires
        0 <= r < g.len(),
        0 <= c < g[r].len(),
        g[r][c] == Cell::Empty,
        p != Cell::Empty,
    ensures
        grid_blanks(place(g, r, c, p)) + 1 == grid_blanks(g),
{
    lemma_row_blanks_update(g[r], c, p);
    lemma_grid_blanks_update(g, r, g[r].update(c, p));
}

/// Placing a mark keeps the grid well formed.
pub proof fn lemma_place_wf(g: Seq<Seq<Cell>>, r: int, c: int, p: Cell)
    requires
        grid_wf(g),
        0 <= r < g.len(),
        0 <= c < g[r].len(),
    ensures
        grid_wf(place(g, r, c, p)),
{
    let up = place(g, r, c, p);
    assert forall|i: int| 0 <= i < up.len() implies (#[trigger] up[i]).len() == up.len() by {
        assert(g[i].len() == g.len());
    }
}

/// An N x N board of cells, row-major. Two boards with the same cells
/// are the same position, however they were reached.
pub struct Board {
    grid: Vec<Vec<Cell>>,
}

impl View for Board {
    type V = Seq<Seq<Cell>>;

    closed spec fn view(&self) -> Seq<Seq<Cell>> {
        self.grid@.map_values(|row: Vec<Cell>| row@)
    }
}

impl Board {
    /// A board is well formed when its grid is a non-empty square and
    /// its cell count fits the machine's word, so that counting and
    /// enumerating cells cannot overflow.
    pub open spec fn wf(&self) -> bool {
        &&& grid_wf(self@)
        &&& self@.len() * self@.len() <= usize::MAX
    }

    /// The side length of the board.
    pub fn size(&self) -> (n: usize)
        ensures
            n == self@.len(),
    {
        self.grid.len()
    }

    /// The all-empty board of side `n`.
    pub fn empty(n: usize) -> (b: Board)
        requires
            n >= 1,
            n * n <= usize::MAX,
        ensures
            b.wf(),
            b@ == empty_grid(n as int),
    {
        let mut grid: Vec<Vec<Cell>> = Vec::new();
        let mut i: usize = 0;
        while i < n
            invariant
                i <= n,
                grid@.len() == i,
                forall|k: int| 0 <= k < i ==> (#[trigger] grid@[k])@ == empty_grid(n as int)[k],
            decreases n - i,
        {
            let mut row: Vec<Cell> = Vec::new();
            let mut j: usize = 0;
            while j < n
                invariant
                    j <= n,
                    row@.len() == j,
                    forall|k: int| 0 <= k < j ==> row@[k] == Cell::Empty,
                decreases n - j,
            {
                row.push(Cell::Empty);
                j = j + 1;
            }
            assert(row@ =~= Seq::new(n as nat, |j: int| Cell::Empty));
            grid.push(row);
            i = i + 1;
        }
        let b = Board { grid };
        assert(b@ =~= empty_grid(n as int));
        b
    }

    /// Makes the all-empty board of side `n`, or `None` when `n` is
    /// zero (a zero-sized game is invalid) or the cell count would
    /// not fit the machine's word.
    pub fn new(n: usize) -> (r: Option<Board>)
        ensures
            (n >= 1 && n * n <= usize::MAX) <==> r is Some,
            r is Some ==> r.unwrap().wf() && r.unwrap()@ == empty_grid(n as int),
    {
        if n == 0 {
            return None;
        }
        match n.checked_mul(n) {
            Some(_) => Some(Board::empty(n)),
            None => None,
        }
    }

    /// The cell at row `r`, column `c`.
    pub fn get(&self, r: usize, c: usize) -> (cell: Cell)
        requires
            self.wf(),
            r < self@.len(),
            c < self@.len(),
        ensures
            cell == self@[r as int][c as int],
    {
        self.grid[r][c]
    }

    /// Row `r` of the board.
    pub fn row(&self, r: usize) -> (row: &Vec<Cell>)
        requires
            self.wf(),
            r < self@.len(),
        ensures
            row@ == self@[r as int],
    {
        &self.grid[r]
    }

    /// Writes `v` at row `r`, column `c`.
    pub fn set(&mut self, r: usize, c: usize, v: Cell)
        requires
            old(self).wf(),
            r < old(self)@.len(),
            c < old(self)@.len(),
        ensures
            final(self)@ == old(self)@.update(
                r as int,
                old(self)@[r as int].update(c as int, v),
            ),
            final(self).wf(),
    {
        proof {
            assert(self@[r as int] == self.grid@[r as int]@);
        }
        self.grid[r][c] = v;
        assert(self@ =~= old(self)@.update(r as int, old(self)@[r as int].update(c as int, v)));
    }
}

/// Returns the number of blank (empty) cells left on this board.
pub fn count_blanks(board: &Board) -> (count: usize)
    requires
        board.wf(),
    ensures
        count == grid_blanks(board@),
{
    let g = Ghost(board@);
    let n = board.size();
    let mut count: usize = 0;
    let mut i: usize = 0;
    while i < n
        invariant
            board.wf(),
            n == g@.len(),
            g@ == board@,
            i <= n,
            count == grid_blanks(g@.take(i as int)),
            count <= i * n,
        decreases n - i,
    {
        let row = board.row(i);
        let mut j: usize = 0;
        let mut rc: usize = 0;
        while j < n
            invariant
                n == row@.len(),
                j <= n,
                rc == row_blanks(row@.take(j as int)),
                rc <= j,
            decreases n - j,
        {
            proof {
                assert(row@.take(j + 1).drop_last() =~= row@.take(j as int));
                assert(row@.take(j + 1).last() == row@[j as int]);
            }
            if row[j] == Cell::Empty {
                rc = rc + 1;
            }
            j = j + 1;
        }
        assert(row@.take(n as int) =~= row@);
        proof {
            assert(g@.take(i + 1).drop_last() =~= g@.take(i as int));
            assert(g@.take(i + 1).last() == g@[i as int]);
            assert((i + 1) * n == i * n + n) by (nonlinear_arith);
            assert(i * n + n <= n * n) by (nonlinear_arith)
                requires
                    i < n,
            ;
        }
        count = count + rc;
        i = i + 1;
    }
    assert(g@.take(n as int) =~= g@);
    count
}

/// Whether two boards hold exactly the same cells.
pub fn boards_equal(a: &Board, b: &Board) -> (eq: bool)
    requires
        a.wf(),
        b.wf(),
    ensures
        eq == (a@ == b@),
{
    let n = a.size();
    if n != b.size() {
        return false;
    }
    let mut i: usize = 0;
    while i < n
        invariant
            a.wf(),
            b.wf(),
            n == a@.len(),
            n == b@.len(),
            i <= n,
            forall|r: int, c: int|
                0 <= r < i && 0 <= c < n ==> #[trigger] a@[r][c] == b@[r][c],
        decreases n - i,
    {
        let mut j: usize = 0;
        while j < n
            invariant
                a.wf(),
                b.wf(),
                n == a@.len(),
                n == b@.len(),
                i < n,
                j <= n,
                forall|c: int| 0 <= c < j ==> #[trigger] a@[i as int][c] == b@[i as int][c],
            decreases n - j,
        {
            if a.get(i, j) != b.get(i, j) {
                return false;
            }
            j = j + 1;
        }
        i = i + 1;
    }
    assert forall|r: int| 0 <= r < n implies #[trigger] a@[r] == b@[r] by {
        assert(a@[r] =~= b@[r]);
    }
    assert(a@ =~= b@);
    true
}

} // verus!
