//! Alpha-beta pruned search with transposition caching. The search
//! threads a pruning window through the recursion and skips branches
//! that provably cannot change the result; fully resolved positions
//! are cached and looked up by exact configuration. The returned
//! value is proved equal to the exhaustive minimax value, so pruning
//! and caching change performance, never the answer.

use vstd::prelude::*;
use crate::board::{Board, Cell, grid_blanks, grid_wf, lemma_place_blanks, lemma_place_wf, place};
use crate::cache::{SearchCache, copy_moves};
use crate::lines::{is_term, utility};
use crate::minimax::{
    best_over, lemma_best_over_prefix, lemma_best_over_push, lemma_best_over_range,
    lemma_minimax_range, minimax,
};
use crate::moves::{
    get_possible_moves, lemma_moves_grid_props, lemma_realize_cons, moves_grid, moves_view,
    realize, valid_move,
};

verus! {

/// `x` confined to the window `[lo, hi]`.
pub open spec fn clamp(x: int, lo: int, hi: int) -> int {
    if x < lo {
        lo
    } else if x > hi {
        hi
    } else {
        x
    }
}

fn clamp_value(x: i8, lo: i8, hi: i8) -> (r: i8)
    requires
        lo <= hi,
    ensures
        r as int == clamp(x as int, lo as int, hi as int),
{
    if x < lo {
        lo
    } else if x > hi {
        hi
    } else {
        x
    }
}

/// One alpha-beta search step for `player` on `board` under the open
/// window `(alpha, beta)`: the result is the minimax value confined
/// to the window, and whenever it lies strictly inside the window it
/// is exact and the returned moves realize it. The board is restored
/// before returning. Only exact results (value strictly inside the
/// window after exhausting every move) are stored in the cache; a
/// cache hit is clamped into the caller's current window.
fn ab(
    board: &mut Board,
    player: Cell,
    alpha: i8,
    beta: i8,
    cache: &mut SearchCache,
) -> (res: (Vec<(usize, usize)>, i8))
    requires
        old(board).wf(),
        player == Cell::MarkA || player == Cell::MarkB,
        -2 <= alpha < beta <= 2,
        old(cache).wf(),
    ensures
        final(board)@ == old(board)@,
        final(cache).wf(),
        res.1 as int == clamp(minimax(old(board)@, player), alpha as int, beta as int),
        alpha < res.1 < beta ==> realize(old(board)@, player, moves_view(res.0@), res.1 as int),
    decreases grid_blanks(old(board)@),
{
    let g = Ghost(old(board)@);
    if let Some((ms, v)) = cache.lookup(board, player) {
        let cv = clamp_value(v, alpha, beta);
        return (ms, cv);
    }
    let (term, tval) = utility(board);
    if term {
        let empty_moves: Vec<(usize, usize)> = Vec::new();
        proof {
            assert(moves_view(empty_moves@) =~= Seq::<(int, int)>::empty());
        }
        let cv = clamp_value(tval, alpha, beta);
        return (empty_moves, cv);
    }
    let mv = get_possible_moves(board);
    let ghost msv = moves_grid(g@);
    let len = mv.len();
    proof {
        lemma_moves_grid_props(g@);
        assert(msv.take(0) =~= Seq::<(int, int)>::empty());
    }
    if matches!(player, Cell::MarkA) {
        // Maximizer: raise the window floor as better moves appear.
        let mut best: i8 = alpha;
        let mut best_moves: Vec<(usize, usize)> = Vec::new();
        let mut i: usize = 0;
        while i < len
            invariant
                board.wf(),
                board@ == g@,
                g@ == old(board)@,
                cache.wf(),
                player == Cell::MarkA,
                !is_term(g@),
                msv == moves_grid(g@),
                moves_view(mv@) == msv,
                len == mv@.len(),
                i <= len,
                forall|k: int| 0 <= k < msv.len() ==> valid_move(g@, #[trigger] msv[k]),
                -2 <= alpha < beta <= 2,
                alpha <= best < beta,
                best as int == clamp(
                    best_over(g@, player, msv.take(i as int)),
                    alpha as int,
                    beta as int,
                ),
                alpha < best ==> realize(g@, player, moves_view(best_moves@), best as int),
            decreases len - i,
        {
            let (r, c) = mv[i];
            proof {
                assert(msv[i as int] == (r as int, c as int));
                lemma_place_wf(g@, r as int, c as int, player);
                lemma_place_blanks(g@, r as int, c as int, player);
            }
            board.set(r, c, Cell::MarkA);
            proof {
                assert(board@ == place(g@, r as int, c as int, player));
            }
            let (child_moves, s) = ab(board, Cell::MarkB, best, beta, cache);
            let ghost cmv = moves_view(child_moves@);
            proof {
                lemma_minimax_range(place(g@, r as int, c as int, player), Cell::MarkB);
            }
            board.set(r, c, Cell::Empty);
            proof {
                assert(board@[r as int] =~= g@[r as int]);
                assert(board@ =~= g@);
                assert(msv.take(i + 1) =~= msv.take(i as int).push(msv[i as int]));
                lemma_best_over_push(g@, player, msv.take(i as int), msv[i as int]);
            }
            if s > best {
                best = s;
                let mut nm: Vec<(usize, usize)> = Vec::new();
                nm.push((r, c));
                let mut tail = child_moves;
                nm.append(&mut tail);
                best_moves = nm;
                proof {
                    assert(moves_view(best_moves@) =~= seq![(r as int, c as int)] + cmv);
                    if best < beta {
                        lemma_realize_cons(g@, player, (r as int, c as int), cmv, s as int);
                    }
                }
                if best >= beta {
                    proof {
                        lemma_best_over_prefix(g@, player, msv, i + 1);
                    }
                    return (best_moves, best);
                }
            }
            i = i + 1;
        }
        proof {
            assert(msv.take(len as int) =~= msv);
            lemma_best_over_range(g@, player, msv);
        }
        if alpha < best {
            // The window never closed: the value is exact, so the
            // position is fully resolved and may be cached.
            cache.store(board, player, copy_moves(&best_moves), best);
        }
        (best_moves, best)
    } else {
        // Minimizer: lower the window ceiling as better moves appear.
        let mut best: i8 = beta;
        let mut best_moves: Vec<(usize, usize)> = Vec::new();
        let mut i: usize = 0;
        while i < len
            invariant
                board.wf(),
                board@ == g@,
                g@ == old(board)@,
                cache.wf(),
                player == Cell::MarkB,
                !is_term(g@),
                msv == moves_grid(g@),
                moves_view(mv@) == msv,
                len == mv@.len(),
                i <= len,
                forall|k: int| 0 <= k < msv.len() ==> valid_move(g@, #[trigger] msv[k]),
                -2 <= alpha < beta <= 2,
                alpha < best <= beta,
                best as int == clamp(
                    best_over(g@, player, msv.take(i as int)),
                    alpha as int,
                    beta as int,
                ),
                best < beta ==> realize(g@, player, moves_view(best_moves@), best as int),
            decreases len - i,
        {
            let (r, c) = mv[i];
            proof {
                assert(msv[i as int] == (r as int, c as int));
                lemma_place_wf(g@, r as int, c as int, player);
                lemma_place_blanks(g@, r as int, c as int, player);
            }
            board.set(r, c, Cell::MarkB);
            proof {
                assert(board@ == place(g@, r as int, c as int, player));
            }
            let (child_moves, s) = ab(board, Cell::MarkA, alpha, best, cache);
            let ghost cmv = moves_view(child_moves@);
            proof {
                lemma_minimax_range(place(g@, r as int, c as int, player), Cell::MarkA);
            }
            board.set(r, c, Cell::Empty);
            proof {
                assert(board@[r as int] =~= g@[r as int]);
                assert(board@ =~= g@);
                assert(msv.take(i + 1) =~= msv.take(i as int).push(msv[i as int]));
                lemma_best_over_push(g@, player, msv.take(i as int), msv[i as int]);
            }
            if s < best {
                best = s;
                let mut nm: Vec<(usize, usize)> = Vec::new();
                nm.push((r, c));
                let mut tail = child_moves;
                nm.append(&mut tail);
                best_moves = nm;
                proof {
                    assert(moves_view(best_moves@) =~= seq![(r as int, c as int)] + cmv);
                    if best > alpha {
                        lemma_realize_cons(g@, player, (r as int, c as int), cmv, s as int);
                    }
                }
                if best <= alpha {
                    proof {
                        lemma_best_over_prefix(g@, player, msv, i + 1);
                    }
                    return (best_moves, best);
                }
            }
            i = i + 1;
        }
        proof {
            assert(msv.take(len as int) =~= msv);
            lemma_best_over_range(g@, player, msv);
        }
        if best < beta {
            // The window never closed: the value is exact, so the
            // position is fully resolved and may be cached.
            cache.store(board, player, copy_moves(&best_moves), best);
        }
        (best_moves, best)
    }
}

/// Pruning changes performance, never the value: a pruned search
/// result is the minimax value confined to the pruning window, and
/// over the full window that confinement is the identity, so the
/// pruned search and the exhaustive minimax search must return the
/// same value for every position.
pub proof fn lemma_pruning_preserves_value(g: Seq<Seq<Cell>>, p: Cell)
    requires
        grid_wf(g),
        p == Cell::MarkA || p == Cell::MarkB,
    ensures
        clamp(minimax(g, p), -2, 2) == minimax(g, p),
{
    lemma_minimax_range(g, p);
}

/// The engine's entry point: the exact game-theoretic value of the
/// position with `player` to move, and a move sequence that, played
/// from here, reaches a terminal position of exactly that value.
/// Internally this is alpha-beta pruned search over a fresh
/// transposition cache, and the value is proved equal to the
/// exhaustive minimax value that `minimax::max` and `minimax::min`
/// compute. The board is restored before returning.
pub fn search(board: &mut Board, player: Cell) -> (res: (Vec<(usize, usize)>, i8))
    requires
        old(board).wf(),
        player == Cell::MarkA || player == Cell::MarkB,
    ensures
        final(board)@ == old(board)@,
        res.1 as int == minimax(old(board)@, player),
        -1 <= res.1 <= 1,
        realize(old(board)@, player, moves_view(res.0@), res.1 as int),
{
    let mut cache = SearchCache::new();
    proof {
        lemma_minimax_range(old(board)@, player);
        lemma_pruning_preserves_value(old(board)@, player);
    }
    ab(board, player, -2, 2, &mut cache)
}

} // verus!
