//! Move generation and move replay. A move is a (row, column) pair
//! naming a currently empty cell; a move sequence is a line of play
//! applied left to right with the two players alternating.

use vstd::prelude::*;
use vstd::pervasive::unreached;
use crate::board::{Board, Cell, empty_grid, grid_blanks, place, row_blanks};
use crate::lines::{is_term, term_value};

verus! {

/// The player moving after `p`.
pub open spec fn opp(p: Cell) -> Cell {
    if p == Cell::MarkA {
        Cell::MarkB
    } else {
        Cell::MarkA
    }
}

/// `m` names an in-bounds, currently empty cell of `g`.
pub open spec fn valid_move(g: Seq<Seq<Cell>>, m: (int, int)) -> bool {
    &&& 0 <= m.0 < g.len()
    &&& 0 <= m.1 < g[m.0].len()
    &&& g[m.0][m.1] == Cell::Empty
}

/// The moves of one row (at row index `r`), in column order.
pub open spec fn moves_in_row(row: Seq<Cell>, r: int) -> Seq<(int, int)>
    decreases row.len(),
{
    if row.len() == 0 {
        Seq::empty()
    } else if row.last() == Cell::Empty {
        moves_in_row(row.drop_last(), r).push((r, row.len() - 1))
    } else {
        moves_in_row(row.drop_last(), r)
    }
}

/// All empty cells of the grid, in row-major scan order.
pub open spec fn moves_grid(g: Seq<Seq<Cell>>) -> Seq<(int, int)>
    decreases g.len(),
{
    if g.len() == 0 {
        Seq::empty()
    } else {
        moves_grid(g.drop_last()) + moves_in_row(g.last(), g.len() - 1)
    }
}

/// The mathematical reading of an executable move list.
pub open spec fn moves_view(ms: Seq<(usize, usize)>) -> Seq<(int, int)> {
    Seq::new(ms.len(), |i: int| (ms[i].0 as int, ms[i].1 as int))
}

proof fn lemma_moves_in_row_props(row: Seq<Cell>, r: int)
    ensures
        moves_in_row(row, r).len() == row_blanks(row),
        forall|k: int| 0 <= k < moves_in_row(row, r).len() ==> {
            let m = #[trigger] moves_in_row(row, r)[k];
            m.0 == r && 0 <= m.1 < row.len() && row[m.1] == Cell::Empty
        },
    decreases row.len(),
{
    if row.len() > 0 {
        lemma_moves_in_row_props(row.drop_last(), r);
    }
}

/// Every generated move names an empty cell, and there are exactly as
/// many moves as blanks.
pub proof fn lemma_moves_grid_props(g: Seq<Seq<Cell>>)
    ensures
        moves_grid(g).len() == grid_blanks(g),
        forall|k: int| 0 <= k < moves_grid(g).len() ==> valid_move(
            g,
            #[trigger] moves_grid(g)[k],
        ),
    decreases g.len(),
{
    if g.len() > 0 {
        lemma_moves_grid_props(g.drop_last());
        lemma_moves_in_row_props(g.last(), g.len() - 1);
    }
}

/// Returns a vector of `(row, col)` pairs for the possible moves: all
/// currently empty cells, in row-major scan order.
pub fn get_possible_moves(board: &Board) -> (mv: Vec<(usize, usize)>)
    requires
        board.wf(),
    ensures
        moves_view(mv@) == moves_grid(board@),
{
    let g = Ghost(board@);
    let n = board.size();
    let mut mv: Vec<(usize, usize)> = Vec::new();
    let mut r: usize = 0;
    while r < n
        invariant
            board.wf(),
            g@ == board@,
            n == g@.len(),
            r <= n,
            moves_view(mv@) == moves_grid(g@.take(r as int)),
        decreases n - r,
    {
        let mut c: usize = 0;
        while c < n
            invariant
                board.wf(),
                g@ == board@,
                n == g@.len(),
                r < n,
                c <= n,
                moves_view(mv@) == moves_grid(g@.take(r as int)) + moves_in_row(
                    g@[r as int].take(c as int),
                    r as int,
                ),
            decreases n - c,
        {
            let row_prefix = Ghost(g@[r as int].take(c + 1));
            proof {
                assert(g@[r as int].len() == n);
                assert(row_prefix@.drop_last() =~= g@[r as int].take(c as int));
                assert(row_prefix@.last() == g@[r as int][c as int]);
            }
            if board.get(r, c) == Cell::Empty {
                let ghost mv_old = mv@;
                mv.push((r, c));
                proof {
                    assert(row_prefix@.last() == Cell::Empty);
                    assert(moves_in_row(row_prefix@, r as int) == moves_in_row(
                        g@[r as int].take(c as int),
                        r as int,
                    ).push((r as int, c as int)));
                    assert(moves_view(mv@) =~= moves_view(mv_old).push((r as int, c as int)));
                    assert(moves_view(mv@) =~= moves_grid(g@.take(r as int)) + moves_in_row(
                        row_prefix@,
                        r as int,
                    ));
                }
            }
            c = c + 1;
        }
        proof {
            assert(g@[r as int].take(n as int) =~= g@[r as int]);
            assert(g@.take(r + 1).drop_last() =~= g@.take(r as int));
            assert(g@.take(r + 1).last() == g@[r as int]);
        }
        r = r + 1;
    }
    assert(g@.take(n as int) =~= g@);
    mv
}

/// The moves `ms` can be played from `g` starting with `p`: each in
/// turn names an empty in-bounds cell of the board built so far.
pub open spec fn can_play(g: Seq<Seq<Cell>>, p: Cell, ms: Seq<(int, int)>) -> bool
    decreases ms.len(),
{
    ms.len() == 0 || (valid_move(g, ms[0]) && can_play(
        place(g, ms[0].0, ms[0].1, p),
        opp(p),
        ms.drop_first(),
    ))
}

/// The board after playing `ms` from `g`, `p` moving first and the
/// players alternating (meaningful under `can_play`).
pub open spec fn play(g: Seq<Seq<Cell>>, p: Cell, ms: Seq<(int, int)>) -> Seq<Seq<Cell>>
    decreases ms.len(),
{
    if ms.len() == 0 {
        g
    } else {
        play(place(g, ms[0].0, ms[0].1, p), opp(p), ms.drop_first())
    }
}

/// The move sequence `ms`, played from `g` with `p` moving first,
/// is legal and ends in a terminal position of utility `v`.
pub open spec fn realize(g: Seq<Seq<Cell>>, p: Cell, ms: Seq<(int, int)>, v: int) -> bool {
    &&& can_play(g, p, ms)
    &&& is_term(play(g, p, ms))
    &&& term_value(play(g, p, ms)) == v
}

/// Prefixing a legal move onto a realizing line of play realizes the
/// same value one ply earlier.
pub proof fn lemma_realize_cons(
    g: Seq<Seq<Cell>>,
    p: Cell,
    m: (int, int),
    ms: Seq<(int, int)>,
    v: int,
)
    requires
        valid_move(g, m),
        realize(place(g, m.0, m.1, p), opp(p), ms, v),
    ensures
        realize(g, p, seq![m] + ms, v),
{
    let all = seq![m] + ms;
    assert(all[0] == m);
    assert(all.drop_first() =~= ms);
}

/// Finds the board created by a list of moves played from the empty
/// board of side `n`, MarkA moving first, or `None` when `n` is
/// invalid or some move is out of bounds or lands on an occupied
/// cell.
pub fn try_replay_moves(n: usize, moves: &Vec<(usize, usize)>) -> (r: Option<Board>)
    ensures
        r is Some <==> (1 <= n && n * n <= usize::MAX && can_play(
            empty_grid(n as int),
            Cell::MarkA,
            moves_view(moves@),
        )),
        r is Some ==> r.unwrap().wf() && r.unwrap()@ == play(
            empty_grid(n as int),
            Cell::MarkA,
            moves_view(moves@),
        ),
{
    if n == 0 {
        return None;
    }
    if n.checked_mul(n).is_none() {
        return None;
    }
    let ghost msv = moves_view(moves@);
    let mut b = Board::empty(n);
    let mut player_x = true;
    let ghost mut p = Cell::MarkA;
    let len = moves.len();
    proof {
        assert(msv.skip(0) =~= msv);
    }
    let mut i: usize = 0;
    while i < len
        invariant
            b.wf(),
            b@.len() == n,
            len == msv.len(),
            len == moves@.len(),
            i <= len,
            msv == moves_view(moves@),
            p == (if player_x {
                Cell::MarkA
            } else {
                Cell::MarkB
            }),
            can_play(empty_grid(n as int), Cell::MarkA, msv) == can_play(b@, p, msv.skip(i as int)),
            can_play(b@, p, msv.skip(i as int)) ==> play(empty_grid(n as int), Cell::MarkA, msv)
                == play(b@, p, msv.skip(i as int)),
        decreases len - i,
    {
        proof {
            assert(msv.skip(i as int)[0] == msv[i as int]);
            assert(msv.skip(i as int).drop_first() =~= msv.skip(i + 1));
        }
        let (mr, mc) = moves[i];
        if mr >= n || mc >= n {
            return None;
        }
        if !(b.get(mr, mc) == Cell::Empty) {
            return None;
        }
        let mark = if player_x {
            Cell::MarkA
        } else {
            Cell::MarkB
        };
        b.set(mr, mc, mark);
        player_x = !player_x;
        proof {
            p = opp(p);
        }
        i = i + 1;
    }
    proof {
        assert(msv.skip(len as int) =~= Seq::<(int, int)>::empty());
    }
    Some(b)
}

/// Finds the board created by a list of moves, replayed from the
/// empty board of side `n` with MarkA moving first. The moves must be
/// a legal line of play; `try_replay_moves` checks that at run time.
pub fn replay_moves(n: usize, moves: &Vec<(usize, usize)>) -> (b: Board)
    requires
        1 <= n,
        n * n <= usize::MAX,
        can_play(empty_grid(n as int), Cell::MarkA, moves_view(moves@)),
    ensures
        b.wf(),
        b@ == play(empty_grid(n as int), Cell::MarkA, moves_view(moves@)),
{
    match try_replay_moves(n, moves) {
        Some(b) => b,
        None => unreached(),
    }
}

} // verus!
