use tictactoe::board::{Board, Cell};
use tictactoe::lines::utility;
use tictactoe::minimax::{max, min};
use tictactoe::moves::replay_moves;
use tictactoe::search::search;

fn cell_of(ch: char) -> Cell {
    match ch {
        'X' => Cell::MarkA,
        'O' => Cell::MarkB,
        _ => Cell::Empty,
    }
}

fn make_board(rows: &[&str]) -> Board {
    let n: usize = rows.len();
    let mut b = Board::new(n).expect("valid size");
    for (r, row) in rows.iter().enumerate() {
        assert_eq!(row.chars().count(), n);
        for (c, ch) in row.chars().enumerate() {
            b.set(r, c, cell_of(ch));
        }
    }
    b
}

/// Applies a move sequence to a board, `first` moving first, and
/// returns the terminal evaluation of the resulting position.
fn replay_onto(board: &mut Board, first: Cell, moves: &Vec<(usize, usize)>) -> (bool, i8) {
    let n = board.size();
    let mut mark = first;
    for &(r, c) in moves {
        assert!(r < n && c < n, "move out of bounds");
        assert_eq!(board.get(r, c), Cell::Empty, "move on an occupied cell");
        board.set(r, c, mark);
        mark = if mark == Cell::MarkA {
            Cell::MarkB
        } else {
            Cell::MarkA
        };
    }
    utility(board)
}

#[test]
fn search_empty_3x3_is_a_draw() {
    let mut b = Board::new(3).expect("valid size");
    let (moves, value) = search(&mut b, Cell::MarkA);
    assert_eq!(value, 0);
    // The returned line fills the board to the drawn terminal position.
    assert_eq!(moves.len(), 9);
}

#[test]
fn search_finds_the_immediate_winning_move() {
    // X completes the top row at (0, 2) and wins at once.
    let mut b = make_board(&["XX ", "OO ", "   "]);
    let (moves, value) = search(&mut b, Cell::MarkA);
    assert_eq!(value, 1);
    assert_eq!(moves, vec![(0, 2)]);
}

#[test]
fn max_finds_the_immediate_winning_move() {
    let mut b = make_board(&["XX ", "OO ", "   "]);
    let (moves, value) = max(&mut b);
    assert_eq!(value, 1);
    assert_eq!(moves, vec![(0, 2)]);
}

#[test]
fn min_finds_the_immediate_winning_move() {
    // O completes the middle row at (1, 2) and wins at once.
    let mut b = make_board(&["XX ", "OO ", "X  "]);
    let (moves, value) = min(&mut b);
    assert_eq!(value, -1);
    assert_eq!(moves, vec![(1, 2)]);
}

#[test]
fn search_on_terminal_position_returns_no_moves() {
    let mut b = make_board(&["XXX", "OO ", "   "]);
    let (moves, value) = search(&mut b, Cell::MarkB);
    assert_eq!(value, 1);
    assert!(moves.is_empty());
}

#[test]
fn replayed_search_line_reaches_the_reported_value() {
    // Round trip from the empty board: the returned line, replayed
    // from the start, ends in a terminal board whose evaluation is
    // the value the search reported.
    let mut b = Board::new(3).expect("valid size");
    let (moves, value) = search(&mut b, Cell::MarkA);
    let replayed = replay_moves(3, &moves);
    assert_eq!(utility(&replayed), (true, value));
}

#[test]
fn replayed_search_lines_reach_the_reported_value_mid_game() {
    let positions: Vec<(Vec<&str>, Cell)> = vec![
        (vec!["X  ", " O ", "   "], Cell::MarkA),
        (vec!["X  ", " O ", "   "], Cell::MarkB),
        (vec!["XO ", " X ", "   "], Cell::MarkB),
        (vec!["XOX", "OO ", "X  "], Cell::MarkA),
        (vec!["OX", "  "], Cell::MarkA),
    ];
    for (rows, player) in positions {
        let mut b = make_board(&rows);
        let (moves, value) = search(&mut b, player);
        let (terminal, terminal_value) = replay_onto(&mut b, player, &moves);
        assert!(terminal, "replayed line must end terminal: {:?}", rows);
        assert_eq!(terminal_value, value, "round trip mismatch on {:?}", rows);
    }
}

#[test]
fn pruned_and_unpruned_search_agree() {
    // Alpha-beta pruned search with the transposition cache must
    // return the same value as plain exhaustive minimax, for either
    // player to move, on every position tried.
    let positions: Vec<Vec<&str>> = vec![
        vec!["X  ", "   ", "   "],
        vec!["   ", " X ", "   "],
        vec!["XO ", "   ", "   "],
        vec!["XOX", " O ", "   "],
        vec!["XO ", " XO", "X  "],
        vec!["XOX", "OXO", "   "],
        vec!["  ", "  "],
        vec!["XO", "  "],
        vec!["X"],
    ];
    for rows in positions {
        let mut b = make_board(&rows);
        let (_, pruned_a) = search(&mut b, Cell::MarkA);
        let (_, plain_a) = max(&mut b);
        assert_eq!(pruned_a, plain_a, "maximizer mismatch on {:?}", rows);
        let (_, pruned_b) = search(&mut b, Cell::MarkB);
        let (_, plain_b) = min(&mut b);
        assert_eq!(pruned_b, plain_b, "minimizer mismatch on {:?}", rows);
    }
}

#[test]
fn first_player_wins_the_2x2_game() {
    let mut b = Board::new(2).expect("valid size");
    let (_, value) = search(&mut b, Cell::MarkA);
    assert_eq!(value, 1);
    let (_, value) = search(&mut b, Cell::MarkB);
    assert_eq!(value, -1);
}

#[test]
fn trivial_1x1_game() {
    let mut b = Board::new(1).expect("valid size");
    let (moves, value) = search(&mut b, Cell::MarkA);
    assert_eq!(value, 1);
    assert_eq!(moves, vec![(0, 0)]);
    let (moves, value) = min(&mut b);
    assert_eq!(value, -1);
    assert_eq!(moves, vec![(0, 0)]);
}

#[test]
fn double_threat_wins_despite_the_defender_moving() {
    // X threatens both the left column (at (1,0)) and the ascending
    // diagonal (at (0,2)); O to move can block only one of them.
    let mut b = make_board(&["XO ", " X ", "X O"]);
    let (_, value) = search(&mut b, Cell::MarkB);
    assert_eq!(value, 1);
}

#[test]
fn position_lost_for_the_side_to_move() {
    // O threatens both the left column (at (1,0)) and the descending
    // diagonal (at (2,2)); X to move can block only one of them.
    let mut b = make_board(&["OXX", " O ", "OX "]);
    let (_, value) = search(&mut b, Cell::MarkA);
    assert_eq!(value, -1);
    let (_, plain) = max(&mut b);
    assert_eq!(plain, -1);
}

#[test]
fn search_restores_the_board_it_was_given() {
    let mut b = make_board(&["XO ", " X ", "   "]);
    let before: Vec<Cell> = (0..3)
        .flat_map(|r| (0..3).map(move |c| (r, c)))
        .map(|(r, c)| b.get(r, c))
        .collect();
    let _ = search(&mut b, Cell::MarkB);
    let _ = max(&mut b);
    let _ = min(&mut b);
    let after: Vec<Cell> = (0..3)
        .flat_map(|r| (0..3).map(move |c| (r, c)))
        .map(|(r, c)| b.get(r, c))
        .collect();
    assert_eq!(before, after);
}

#[test]
fn search_4x4_near_full_position() {
    // A nearly full 4x4 board: X completes the last row's missing
    // cell? No line is open for either side, so the game draws.
    let mut b = make_board(&["XOXO", "OXOX", "XOXO", "XO O"]);
    let (moves, value) = search(&mut b, Cell::MarkA);
    assert_eq!(value, 0);
    assert_eq!(moves, vec![(3, 2)]);
}

#[test]
fn search_4x4_immediate_win() {
    let mut b = make_board(&["XXX ", "OO O", "XOXO", "OXOX"]);
    let (moves, value) = search(&mut b, Cell::MarkA);
    assert_eq!(value, 1);
    assert_eq!(moves, vec![(0, 3)]);
}
