use tictactoe::board::{Board, Cell, boards_equal};
use tictactoe::moves::{get_possible_moves, replay_moves, try_replay_moves};

fn cell_of(ch: char) -> Cell {
    match ch {
        'X' => Cell::MarkA,
        'O' => Cell::MarkB,
        _ => Cell::Empty,
    }
}

fn make_board(rows: &[&str]) -> Board {
    let n: usize = rows.len();
    let mut b = Board::new(n).expect("valid size");
    for (r, row) in rows.iter().enumerate() {
        assert_eq!(row.chars().count(), n);
        for (c, ch) in row.chars().enumerate() {
            b.set(r, c, cell_of(ch));
        }
    }
    b
}

#[test]
fn possible_moves_are_the_blanks_in_row_major_order() {
    let b = make_board(&["XO ", " X ", "O  "]);
    let moves = get_possible_moves(&b);
    assert_eq!(moves, vec![(0, 2), (1, 0), (1, 2), (2, 1), (2, 2)]);
}

#[test]
fn possible_moves_of_empty_and_full_boards() {
    let b = Board::new(2).expect("valid size");
    assert_eq!(get_possible_moves(&b), vec![(0, 0), (0, 1), (1, 0), (1, 1)]);
    let b = make_board(&["XO", "OX"]);
    assert_eq!(get_possible_moves(&b), vec![]);
}

#[test]
fn replay_alternates_marks_starting_with_a() {
    let moves: Vec<(usize, usize)> = vec![(0, 0), (1, 1), (0, 1)];
    let b = replay_moves(3, &moves);
    assert_eq!(b.get(0, 0), Cell::MarkA);
    assert_eq!(b.get(1, 1), Cell::MarkB);
    assert_eq!(b.get(0, 1), Cell::MarkA);
    assert_eq!(b.get(2, 2), Cell::Empty);
}

#[test]
fn replay_of_no_moves_is_the_empty_board() {
    let moves: Vec<(usize, usize)> = vec![];
    let b = replay_moves(3, &moves);
    let empty = Board::new(3).expect("valid size");
    assert!(boards_equal(&b, &empty));
}

#[test]
fn try_replay_rejects_out_of_bounds_moves() {
    let moves: Vec<(usize, usize)> = vec![(0, 0), (3, 1)];
    assert!(try_replay_moves(3, &moves).is_none());
}

#[test]
fn try_replay_rejects_occupied_cells() {
    let moves: Vec<(usize, usize)> = vec![(1, 1), (1, 1)];
    assert!(try_replay_moves(3, &moves).is_none());
}

#[test]
fn try_replay_rejects_a_zero_sized_board() {
    let moves: Vec<(usize, usize)> = vec![];
    assert!(try_replay_moves(0, &moves).is_none());
}

#[test]
fn try_replay_accepts_a_legal_line() {
    let moves: Vec<(usize, usize)> = vec![(2, 2), (0, 0)];
    let b = try_replay_moves(3, &moves).expect("legal line");
    assert_eq!(b.get(2, 2), Cell::MarkA);
    assert_eq!(b.get(0, 0), Cell::MarkB);
}

#[test]
fn boards_compare_by_contents() {
    let a = make_board(&["XO ", " X ", "   "]);
    let b = make_board(&["XO ", " X ", "   "]);
    let c = make_board(&["XO ", " O ", "   "]);
    assert!(boards_equal(&a, &b));
    assert!(!boards_equal(&a, &c));
    let small = Board::new(2).expect("valid size");
    assert!(!boards_equal(&a, &small));
}
