//! The transposition cache: a map from exact board configuration
//! (and player to move) to an already-resolved best line and value.
//! Only fully resolved results are ever stored, an entry is never
//! overwritten, and every stored value is proved to be the minimax
//! value of its position, so a cache hit is as good as a search.

use vstd::prelude::*;
use std::collections::HashMap;
use crate::board::{Board, Cell, boards_equal};
use crate::minimax::minimax;
use crate::moves::{moves_view, realize};

verus! {

/// The base-3 digit a cell contributes to a board's key.
pub open spec fn cell_digit(c: Cell) -> int {
    match c {
        Cell::Empty => 0,
        Cell::MarkA => 1,
        Cell::MarkB => 2,
    }
}

/// The grid's cells as one row-major sequence.
pub open spec fn flat_grid(g: Seq<Seq<Cell>>) -> Seq<Cell>
    decreases g.len(),
{
    if g.len() == 0 {
        Seq::empty()
    } else {
        flat_grid(g.drop_last()) + g.last()
    }
}

/// The cells read as one base-3 number: the configuration key.
pub open spec fn key_of(s: Seq<Cell>) -> int
    decreases s.len(),
{
    if s.len() == 0 {
        0
    } else {
        key_of(s.drop_last()) * 3 + cell_digit(s.last())
    }
}

/// The cells of rows `i` and beyond, as one row-major sequence.
pub open spec fn flat_from(g: Seq<Seq<Cell>>, i: int) -> Seq<Cell>
    decreases g.len() - i,
{
    if i < 0 || i >= g.len() {
        Seq::empty()
    } else {
        g[i] + flat_from(g, i + 1)
    }
}

/// A configuration key is never negative.
pub proof fn lemma_key_nonneg(s: Seq<Cell>)
    ensures
        key_of(s) >= 0,
    decreases s.len(),
{
    if s.len() > 0 {
        lemma_key_nonneg(s.drop_last());
    }
}

/// Extending a cell sequence can only grow its key.
pub proof fn lemma_key_concat_ge(pre: Seq<Cell>, suffix: Seq<Cell>)
    ensures
        key_of(pre + suffix) >= key_of(pre),
    decreases suffix.len(),
{
    if suffix.len() == 0 {
        assert(pre + suffix =~= pre);
    } else {
        lemma_key_concat_ge(pre, suffix.drop_last());
        assert((pre + suffix).drop_last() =~= pre + suffix.drop_last());
        lemma_key_nonneg(pre + suffix.drop_last());
    }
}

/// The flattened grid splits at any row boundary.
pub proof fn lemma_flat_split(g: Seq<Seq<Cell>>, i: int)
    requires
        0 <= i <= g.len(),
    ensures
        flat_grid(g) == flat_grid(g.take(i)) + flat_from(g, i),
    decreases g.len() - i,
{
    if i == g.len() {
        assert(g.take(i) =~= g);
        assert(flat_grid(g) =~= flat_grid(g.take(i)) + flat_from(g, i));
    } else {
        lemma_flat_split(g, i + 1);
        assert(g.take(i + 1).drop_last() =~= g.take(i));
        assert(g.take(i + 1).last() == g[i]);
        assert(flat_grid(g.take(i + 1)) == flat_grid(g.take(i)) + g[i]);
        assert(flat_grid(g.take(i)) + flat_from(g, i) =~= (flat_grid(g.take(i)) + g[i])
            + flat_from(g, i + 1));
    }
}

/// One resolved cache entry: the position, the player who was to
/// move, and the best line and value the search established.
pub struct CacheEntry {
    pub board: Board,
    pub player: Cell,
    pub moves: Vec<(usize, usize)>,
    pub value: i8,
}

/// An entry may only ever hold a fully resolved result: the exact
/// minimax value of its position and a line of play realizing it.
pub open spec fn entry_ok(e: CacheEntry) -> bool {
    &&& e.board.wf()
    &&& e.player == Cell::MarkA || e.player == Cell::MarkB
    &&& -1 <= e.value <= 1
    &&& e.value as int == minimax(e.board@, e.player)
    &&& realize(e.board@, e.player, moves_view(e.moves@), e.value as int)
}

/// The transposition cache. Keys are the base-3 configuration keys
/// of the stored boards; the stored board itself is compared on
/// lookup, so a hit is always for the exact configuration asked for.
pub struct SearchCache {
    map: HashMap<u64, CacheEntry>,
}

impl SearchCache {
    /// The entries currently held, by configuration key.
    pub closed spec fn entries(self) -> Map<u64, CacheEntry> {
        self.map@
    }

    /// Every entry is resolved and sits under its own board's key.
    pub open spec fn wf(self) -> bool {
        forall|k: u64| self.entries().contains_key(k) ==> entry_ok(
            #[trigger] self.entries()[k],
        ) && key_of(flat_grid(self.entries()[k].board@)) == k as int
    }

    /// The empty cache.
    pub fn new() -> (c: SearchCache)
        ensures
            c.wf(),
            c.entries() == Map::<u64, CacheEntry>::empty(),
    {
        SearchCache { map: HashMap::new() }
    }

    /// Whether the cache holds an entry for exactly this position:
    /// its configuration key is present and the entry under it was
    /// stored for the same cells and the same player to move.
    pub open spec fn holds(self, g: Seq<Seq<Cell>>, player: Cell) -> bool {
        let ki = key_of(flat_grid(g));
        &&& ki <= u64::MAX
        &&& self.entries().contains_key(ki as u64)
        &&& self.entries()[ki as u64].board@ == g
        &&& self.entries()[ki as u64].player == player
    }

    /// Looks the exact position up: a hit if and only if this
    /// configuration, for this player, was stored. A hit hands back
    /// a copy of the stored line and value, which is proved to be
    /// the position's minimax value; so any two hits for
    /// bit-identical boards agree.
    pub fn lookup(&self, board: &Board, player: Cell) -> (r: Option<(Vec<(usize, usize)>, i8)>)
        requires
            self.wf(),
            board.wf(),
        ensures
            r is Some <==> self.holds(board@, player),
            r is Some ==> {
                let (ms, v) = r.unwrap();
                let e = self.entries()[key_of(flat_grid(board@)) as u64];
                &&& ms@ == e.moves@
                &&& v == e.value
                &&& -1 <= v <= 1
                &&& v as int == minimax(board@, player)
                &&& realize(board@, player, moves_view(ms@), v as int)
            },
    {
        proof {
            lemma_key_nonneg(flat_grid(board@));
        }
        let key = match encode_board(board) {
            Some(k) => k,
            None => {
                return None;
            },
        };
        match self.map.get(&key) {
            Some(e) => {
                if cells_equal(e.player, player) && boards_equal(&e.board, board) {
                    Some((copy_moves(&e.moves), e.value))
                } else {
                    None
                }
            },
            None => None,
        }
    }

    /// Stores a fully resolved result for this position, keyed by the
    /// board's configuration at the time of the call. An existing
    /// entry is never overwritten: entries are write-once, so a
    /// stored value can never change while the cache lives. The new
    /// entry is recorded whenever its key fits and is still free; a
    /// board whose key does not fit 64 bits is simply not cached.
    pub fn store(
        &mut self,
        board: &Board,
        player: Cell,
        moves: Vec<(usize, usize)>,
        value: i8,
    )
        requires
            old(self).wf(),
            board.wf(),
            player == Cell::MarkA || player == Cell::MarkB,
            -1 <= value <= 1,
            value as int == minimax(board@, player),
            realize(board@, player, moves_view(moves@), value as int),
        ensures
            final(self).wf(),
            forall|k: u64| old(self).entries().contains_key(k)
                ==> final(self).entries().contains_key(k)
                && final(self).entries()[k] == old(self).entries()[k],
            ({
                let ki = key_of(flat_grid(board@));
                if ki <= u64::MAX && !old(self).entries().contains_key(ki as u64) {
                    let e = final(self).entries()[ki as u64];
                    &&& final(self).entries().dom() == old(self).entries().dom().insert(
                        ki as u64,
                    )
                    &&& e.board@ == board@
                    &&& e.player == player
                    &&& e.moves@ == moves@
                    &&& e.value == value
                } else {
                    final(self).entries() == old(self).entries()
                }
            }),
    {
        proof {
            lemma_key_nonneg(flat_grid(board@));
        }
        let key = match encode_board(board) {
            Some(k) => k,
            None => {
                return;
            },
        };
        if !self.map.contains_key(&key) {
            let entry = CacheEntry {
                board: copy_board(board),
                player,
                moves,
                value,
            };
            self.map.insert(key, entry);
        }
    }
}

/// Bit-identical board configurations can never sit under two
/// different cache entries: the key is a function of the cells alone,
/// so the two entries are one and the same (and hold one value).
pub proof fn lemma_cache_consistent(c: SearchCache, k1: u64, k2: u64)
    requires
        c.wf(),
        c.entries().contains_key(k1),
        c.entries().contains_key(k2),
        c.entries()[k1].board@ == c.entries()[k2].board@,
    ensures
        k1 == k2,
        c.entries()[k1] == c.entries()[k2],
        c.entries()[k1].value == c.entries()[k2].value,
{
    assert(key_of(flat_grid(c.entries()[k1].board@)) == k1 as int);
    assert(key_of(flat_grid(c.entries()[k2].board@)) == k2 as int);
}

/// Whether two cells hold the same mark.
fn cells_equal(a: Cell, b: Cell) -> (eq: bool)
    ensures
        eq == (a == b),
{
    match (a, b) {
        (Cell::Empty, Cell::Empty) => true,
        (Cell::MarkA, Cell::MarkA) => true,
        (Cell::MarkB, Cell::MarkB) => true,
        _ => false,
    }
}

/// A fresh vector with the same moves.
pub(crate) fn copy_moves(ms: &Vec<(usize, usize)>) -> (r: Vec<(usize, usize)>)
    ensures
        r@ == ms@,
{
    let mut r: Vec<(usize, usize)> = Vec::new();
    let mut i: usize = 0;
    let len = ms.len();
    while i < len
        invariant
            len == ms@.len(),
            i <= len,
            r@ == ms@.take(i as int),
        decreases len - i,
    {
        r.push(ms[i]);
        assert(r@ =~= ms@.take(i + 1));
        i = i + 1;
    }
    assert(ms@.take(len as int) =~= ms@);
    r
}

/// A fresh board with the same cells.
fn copy_board(board: &Board) -> (r: Board)
    requires
        board.wf(),
    ensures
        r.wf(),
        r@ == board@,
{
    let n = board.size();
    let mut r = Board::empty(n);
    let mut i: usize = 0;
    while i < n
        invariant
            board.wf(),
            r.wf(),
            n == board@.len(),
            n == r@.len(),
            i <= n,
            forall|a: int, b: int|
                0 <= a < i && 0 <= b < n ==> #[trigger] r@[a][b] == board@[a][b],
        decreases n - i,
    {
        let mut j: usize = 0;
        while j < n
            invariant
                board.wf(),
                r.wf(),
                n == board@.len(),
                n == r@.len(),
                i < n,
                j <= n,
                forall|a: int, b: int|
                    0 <= a < i && 0 <= b < n ==> #[trigger] r@[a][b] == board@[a][b],
                forall|b: int| 0 <= b < j ==> #[trigger] r@[i as int][b] == board@[i as int][b],
            decreases n - j,
        {
            r.set(i, j, board.get(i, j));
            j = j + 1;
        }
        i = i + 1;
    }
    proof {
        assert forall|a: int| 0 <= a < n implies #[trigger] r@[a] == board@[a] by {
            assert(r@[a] =~= board@[a]);
        }
        assert(r@ =~= board@);
    }
    r
}

/// The board's cells read as one base-3 number, or `None` exactly
/// when that number does not fit in 64 bits (such a board is simply
/// not cached).
fn encode_board(board: &Board) -> (r: Option<u64>)
    requires
        board.wf(),
    ensures
        r is Some <==> key_of(flat_grid(board@)) <= u64::MAX,
        r is Some ==> r.unwrap() as int == key_of(flat_grid(board@)),
{
    let g = Ghost(board@);
    let n = board.size();
    let mut key: u64 = 0;
    let mut i: usize = 0;
    while i < n
        invariant
            board.wf(),
            g@ == board@,
            n == g@.len(),
            i <= n,
            key as int == key_of(flat_grid(g@.take(i as int))),
        decreases n - i,
    {
        let ghost row = g@[i as int];
        let mut j: usize = 0;
        while j < n
            invariant
                board.wf(),
                g@ == board@,
                n == g@.len(),
                row == g@[i as int],
                row.len() == n,
                i < n,
                j <= n,
                key as int == key_of(flat_grid(g@.take(i as int)) + row.take(j as int)),
            decreases n - j,
        {
            let cell = board.get(i, j);
            let digit: u64 = match cell {
                Cell::Empty => 0,
                Cell::MarkA => 1,
                Cell::MarkB => 2,
            };
            let ghost pre = flat_grid(g@.take(i as int)) + row.take(j as int);
            proof {
                assert((flat_grid(g@.take(i as int)) + row.take(j + 1)) =~= pre.push(
                    row[j as int],
                ));
                assert(pre.push(row[j as int]).drop_last() =~= pre);
                // The whole flattened grid extends this prefix, so if
                // the key so far already overflows, the full key does.
                lemma_flat_split(g@, i as int);
                assert(g@[i as int] =~= row.take(j + 1) + row.skip(j + 1));
                assert(flat_grid(g@) =~= pre.push(row[j as int]) + (row.skip(j + 1) + flat_from(
                    g@,
                    i + 1,
                )));
                lemma_key_concat_ge(
                    pre.push(row[j as int]),
                    row.skip(j + 1) + flat_from(g@, i + 1),
                );
            }
            let shifted = match key.checked_mul(3) {
                Some(s) => s,
                None => {
                    return None;
                },
            };
            key = match shifted.checked_add(digit) {
                Some(s) => s,
                None => {
                    return None;
                },
            };
            j = j + 1;
        }
        proof {
            assert(row.take(n as int) =~= row);
            assert(g@.take(i + 1).drop_last() =~= g@.take(i as int));
            assert(g@.take(i + 1).last() == row);
            assert(flat_grid(g@.take(i + 1)) == flat_grid(g@.take(i as int)) + row);
        }
        i = i + 1;
    }
    proof {
        assert(g@.take(n as int) =~= g@);
    }
    Some(key)
}

} // verus!
