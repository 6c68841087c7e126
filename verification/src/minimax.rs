//! The minimax recursion: the exact game-theoretic value of a
//! position, and the exhaustive two-player search (`max` / `min`)
//! proved to compute it together with a line of play that realizes
//! it.

use vstd::prelude::*;
use crate::board::{Board, Cell, grid_blanks, grid_wf, lemma_place_blanks, lemma_place_wf, place};
use crate::lines::{is_term, lemma_scan_value_range, term_value, utility};
use crate::moves::{
    get_possible_moves, lemma_moves_grid_props, lemma_realize_cons, moves_grid, moves_view, opp,
    realize, valid_move,
};

verus! {

/// The sentinel start value of `p`'s search: strictly worse for `p`
/// than every reachable utility.
pub open spec fn worst(p: Cell) -> int {
    if p == Cell::MarkA {
        -2
    } else {
        2
    }
}

/// The value `p` prefers of the two; the incumbent `a` is kept on a
/// tie.
pub open spec fn better(p: Cell, a: int, b: int) -> int {
    if p == Cell::MarkA {
        if b > a {
            b
        } else {
            a
        }
    } else {
        if b < a {
            b
        } else {
            a
        }
    }
}

/// The exact game-theoretic value of `g` with `p` to move: the
/// utility when the position is terminal, else the value of `p`'s
/// best move.
pub open spec fn minimax(g: Seq<Seq<Cell>>, p: Cell) -> int
    decreases grid_blanks(g), 1int, 0int,
{
    if is_term(g) {
        term_value(g)
    } else {
        best_over(g, p, moves_grid(g))
    }
}

/// The value `p` prefers among playing any move of `ms` in `g`
/// (moves that do not name an empty in-bounds cell are skipped;
/// `worst(p)` when none applies).
pub open spec fn best_over(g: Seq<Seq<Cell>>, p: Cell, ms: Seq<(int, int)>) -> int
    decreases grid_blanks(g), 0int, ms.len(),
{
    if ms.len() == 0 {
        worst(p)
    } else {
        let rest = best_over(g, p, ms.drop_first());
        if (p == Cell::MarkA || p == Cell::MarkB) && valid_move(g, ms[0]) {
            proof {
                lemma_place_blanks(g, ms[0].0, ms[0].1, p);
            }
            better(p, rest, minimax(place(g, ms[0].0, ms[0].1, p), opp(p)))
        } else {
            rest
        }
    }
}

/// The minimax value of any position lies in [-1, 1].
pub proof fn lemma_minimax_range(g: Seq<Seq<Cell>>, p: Cell)
    requires
        grid_wf(g),
        p == Cell::MarkA || p == Cell::MarkB,
    ensures
        -1 <= minimax(g, p) <= 1,
    decreases grid_blanks(g), 1int, 0int,
{
    if is_term(g) {
        lemma_scan_value_range(g);
    } else {
        lemma_moves_grid_props(g);
        lemma_best_over_range(g, p, moves_grid(g));
    }
}

/// Over a non-empty list of legal moves, the best value is a real
/// utility, not the sentinel.
pub proof fn lemma_best_over_range(g: Seq<Seq<Cell>>, p: Cell, ms: Seq<(int, int)>)
    requires
        grid_wf(g),
        p == Cell::MarkA || p == Cell::MarkB,
        forall|k: int| 0 <= k < ms.len() ==> valid_move(g, #[trigger] ms[k]),
    ensures
        ms.len() == 0 ==> best_over(g, p, ms) == worst(p),
        ms.len() > 0 ==> -1 <= best_over(g, p, ms) <= 1,
    decreases grid_blanks(g), 0int, ms.len(),
{
    if ms.len() > 0 {
        assert forall|k: int| 0 <= k < ms.drop_first().len() implies valid_move(
            g,
            #[trigger] ms.drop_first()[k],
        ) by {
            assert(ms.drop_first()[k] == ms[k + 1]);
        }
        lemma_best_over_range(g, p, ms.drop_first());
        assert(valid_move(g, ms[0]));
        let child = place(g, ms[0].0, ms[0].1, p);
        lemma_place_blanks(g, ms[0].0, ms[0].1, p);
        lemma_place_wf(g, ms[0].0, ms[0].1, p);
        lemma_minimax_range(child, opp(p));
    }
}

/// Appending one more move to the candidate list folds its value in
/// with `better`.
pub proof fn lemma_best_over_push(g: Seq<Seq<Cell>>, p: Cell, ms: Seq<(int, int)>, m: (int, int))
    ensures
        best_over(g, p, ms.push(m)) == (
        if (p == Cell::MarkA || p == Cell::MarkB) && valid_move(g, m) {
            better(p, best_over(g, p, ms), minimax(place(g, m.0, m.1, p), opp(p)))
        } else {
            best_over(g, p, ms)
        }),
    decreases ms.len(),
{
    if ms.len() == 0 {
        assert(ms.push(m)[0] == m);
        assert(ms.push(m).drop_first() =~= ms);
    } else {
        lemma_best_over_push(g, p, ms.drop_first(), m);
        assert(ms.push(m)[0] == ms[0]);
        assert(ms.push(m).drop_first() =~= ms.drop_first().push(m));
    }
}

/// For the maximizer a longer candidate list can only raise the best
/// value; for the minimizer it can only lower it.
pub proof fn lemma_best_over_prefix(g: Seq<Seq<Cell>>, p: Cell, ms: Seq<(int, int)>, j: int)
    requires
        0 <= j <= ms.len(),
    ensures
        p == Cell::MarkA ==> best_over(g, p, ms.take(j)) <= best_over(g, p, ms),
        p == Cell::MarkB ==> best_over(g, p, ms.take(j)) >= best_over(g, p, ms),
    decreases ms.len() - j,
{
    if j == ms.len() {
        assert(ms.take(j) =~= ms);
    } else {
        lemma_best_over_prefix(g, p, ms, j + 1);
        assert(ms.take(j + 1) =~= ms.take(j).push(ms[j]));
        lemma_best_over_push(g, p, ms.take(j), ms[j]);
    }
}

/// Plays the best move sequence for the maximizer (A) from this
/// position: exhaustive minimax, no pruning. Returns the best moves
/// and the score of that best line; the board is restored before
/// returning.
pub fn max(board: &mut Board) -> (res: (Vec<(usize, usize)>, i8))
    requires
        old(board).wf(),
    ensures
        final(board)@ == old(board)@,
        res.1 as int == minimax(old(board)@, Cell::MarkA),
        -1 <= res.1 <= 1,
        realize(old(board)@, Cell::MarkA, moves_view(res.0@), res.1 as int),
    decreases grid_blanks(old(board)@),
{
    let g = Ghost(old(board)@);
    let (term, tval) = utility(board);
    if term {
        let empty_moves: Vec<(usize, usize)> = Vec::new();
        proof {
            lemma_scan_value_range(g@);
            assert(moves_view(empty_moves@) =~= Seq::<(int, int)>::empty());
        }
        return (empty_moves, tval);
    }
    let mv = get_possible_moves(board);
    let ghost msv = moves_grid(g@);
    let len = mv.len();
    proof {
        lemma_moves_grid_props(g@);
        assert(msv.take(0) =~= Seq::<(int, int)>::empty());
    }
    let mut best: i8 = -2;
    let mut best_moves: Vec<(usize, usize)> = Vec::new();
    let mut i: usize = 0;
    while i < len
        invariant
            board.wf(),
            board@ == g@,
            g@ == old(board)@,
            !is_term(g@),
            msv == moves_grid(g@),
            moves_view(mv@) == msv,
            len == mv@.len(),
            i <= len,
            forall|k: int| 0 <= k < msv.len() ==> valid_move(g@, #[trigger] msv[k]),
            best as int == best_over(g@, Cell::MarkA, msv.take(i as int)),
            -2 <= best <= 1,
            best as int != worst(Cell::MarkA) ==> realize(
                g@,
                Cell::MarkA,
                moves_view(best_moves@),
                best as int,
            ),
        decreases len - i,
    {
        let (r, c) = mv[i];
        proof {
            assert(msv[i as int] == (r as int, c as int));
            lemma_place_wf(g@, r as int, c as int, Cell::MarkA);
            lemma_place_blanks(g@, r as int, c as int, Cell::MarkA);
        }
        board.set(r, c, Cell::MarkA);
        proof {
            assert(board@ == place(g@, r as int, c as int, Cell::MarkA));
        }
        let (child_moves, score) = min(board);
        let ghost cmv = moves_view(child_moves@);
        proof {
            lemma_minimax_range(place(g@, r as int, c as int, Cell::MarkA), Cell::MarkB);
        }
        board.set(r, c, Cell::Empty);
        proof {
            assert(board@[r as int] =~= g@[r as int]);
            assert(board@ =~= g@);
        }
        if score > best {
            best = score;
            let mut nm: Vec<(usize, usize)> = Vec::new();
            nm.push((r, c));
            let mut tail = child_moves;
            nm.append(&mut tail);
            best_moves = nm;
            proof {
                assert(moves_view(best_moves@) =~= seq![(r as int, c as int)] + cmv);
                lemma_realize_cons(g@, Cell::MarkA, (r as int, c as int), cmv, score as int);
            }
        }
        proof {
            assert(msv.take(i + 1) =~= msv.take(i as int).push(msv[i as int]));
            lemma_best_over_push(g@, Cell::MarkA, msv.take(i as int), msv[i as int]);
        }
        i = i + 1;
    }
    proof {
        assert(msv.take(len as int) =~= msv);
        lemma_best_over_range(g@, Cell::MarkA, msv);
    }
    (best_moves, best)
}

/// Plays the best move sequence for the minimizer (B) from this
/// position: exhaustive minimax, no pruning. Returns the best moves
/// and the score of that best line; the board is restored before
/// returning.
pub fn min(board: &mut Board) -> (res: (Vec<(usize, usize)>, i8))
    requires
        old(board).wf(),
    ensures
        final(board)@ == old(board)@,
        res.1 as int == minimax(old(board)@, Cell::MarkB),
        -1 <= res.1 <= 1,
        realize(old(board)@, Cell::MarkB, moves_view(res.0@), res.1 as int),
    decreases grid_blanks(old(board)@),
{
    let g = Ghost(old(board)@);
    let (term, tval) = utility(board);
    if term {
        let empty_moves: Vec<(usize, usize)> = Vec::new();
        proof {
            lemma_scan_value_range(g@);
            assert(moves_view(empty_moves@) =~= Seq::<(int, int)>::empty());
        }
        return (empty_moves, tval);
    }
    let mv = get_possible_moves(board);
    let ghost msv = moves_grid(g@);
    let len = mv.len();
    proof {
        lemma_moves_grid_props(g@);
        assert(msv.take(0) =~= Seq::<(int, int)>::empty());
    }
    let mut best: i8 = 2;
    let mut best_moves: Vec<(usize, usize)> = Vec::new();
    let mut i: usize = 0;
    while i < len
        invariant
            board.wf(),
            board@ == g@,
            g@ == old(board)@,
            !is_term(g@),
            msv == moves_grid(g@),
            moves_view(mv@) == msv,
            len == mv@.len(),
            i <= len,
            forall|k: int| 0 <= k < msv.len() ==> valid_move(g@, #[trigger] msv[k]),
            best as int == best_over(g@, Cell::MarkB, msv.take(i as int)),
            -1 <= best <= 2,
            best as int != worst(Cell::MarkB) ==> realize(
                g@,
                Cell::MarkB,
                moves_view(best_moves@),
                best as int,
            ),
        decreases len - i,
    {
        let (r, c) = mv[i];
        proof {
            assert(msv[i as int] == (r as int, c as int));
            lemma_place_wf(g@, r as int, c as int, Cell::MarkB);
            lemma_place_blanks(g@, r as int, c as int, Cell::MarkB);
        }
        board.set(r, c, Cell::MarkB);
        proof {
            assert(board@ == place(g@, r as int, c as int, Cell::MarkB));
        }
        let (child_moves, score) = max(board);
        let ghost cmv = moves_view(child_moves@);
        proof {
            lemma_minimax_range(place(g@, r as int, c as int, Cell::MarkB), Cell::MarkA);
        }
        board.set(r, c, Cell::Empty);
        proof {
            assert(board@[r as int] =~= g@[r as int]);
            assert(board@ =~= g@);
        }
        if score < best {
            best = score;
            let mut nm: Vec<(usize, usize)> = Vec::new();
            nm.push((r, c));
            let mut tail = child_moves;
            nm.append(&mut tail);
            best_moves = nm;
            proof {
                assert(moves_view(best_moves@) =~= seq![(r as int, c as int)] + cmv);
                lemma_realize_cons(g@, Cell::MarkB, (r as int, c as int), cmv, score as int);
            }
        }
        proof {
            assert(msv.take(i + 1) =~= msv.take(i as int).push(msv[i as int]));
            lemma_best_over_push(g@, Cell::MarkB, msv.take(i as int), msv[i as int]);
        }
        i = i + 1;
    }
    proof {
        assert(msv.take(len as int) =~= msv);
        lemma_best_over_range(g@, Cell::MarkB, msv);
    }
    (best_moves, best)
}

} // verus!
