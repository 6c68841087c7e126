use tictactoe::board::{Board, Cell, count_blanks};
use tictactoe::lines::{array_scores, get_col, get_diag_ascending, get_diag_descending, utility};

fn cell_of(ch: char) -> Cell {
    match ch {
        'X' => Cell::MarkA,
        'O' => Cell::MarkB,
        _ => Cell::Empty,
    }
}

fn make_board(rows: &[&str]) -> Board {
    let n: usize = rows.len();
    let mut b = Board::new(n).expect("valid size");
    for (r, row) in rows.iter().enumerate() {
        assert_eq!(row.chars().count(), n);
        for (c, ch) in row.chars().enumerate() {
            b.set(r, c, cell_of(ch));
        }
    }
    b
}

/// An independent terminal check: every row, every column, and both
/// diagonals are scanned on their own, in the same priority order the
/// engine documents (rows, then columns, then the two diagonals).
fn brute_force(rows: &Vec<Vec<char>>) -> (bool, i8) {
    let n: usize = rows.len();
    let line_score = |line: &Vec<char>| -> i8 {
        if line.iter().all(|&ch| ch == 'X') {
            1
        } else if line.iter().all(|&ch| ch == 'O') {
            -1
        } else {
            0
        }
    };
    let mut lines: Vec<Vec<char>> = Vec::new();
    for r in 0..n {
        lines.push(rows[r].clone());
    }
    for c in 0..n {
        lines.push((0..n).map(|r| rows[r][c]).collect());
    }
    lines.push((0..n).map(|i| rows[i][i]).collect());
    lines.push((0..n).map(|i| rows[n - 1 - i][i]).collect());
    for line in &lines {
        let s = line_score(line);
        if s != 0 {
            return (true, s);
        }
    }
    let blanks: usize = rows.iter().flatten().filter(|&&ch| ch == ' ').count();
    if blanks == 0 {
        (true, 0)
    } else {
        (false, 0)
    }
}

fn board_of_chars(rows: &Vec<Vec<char>>) -> Board {
    let n: usize = rows.len();
    let mut b = Board::new(n).expect("valid size");
    for r in 0..n {
        for c in 0..n {
            b.set(r, c, cell_of(rows[r][c]));
        }
    }
    b
}

fn check_against_brute_force(rows: &Vec<Vec<char>>) {
    let b = board_of_chars(rows);
    let got = utility(&b);
    let want = brute_force(rows);
    assert_eq!(got, want, "disagreement on {:?}", rows);
}

#[test]
fn utility_column_win_for_x() {
    let b = make_board(&["XO ", "X O", "X  "]);
    assert_eq!(utility(&b), (true, 1));
}

#[test]
fn utility_full_draw() {
    let b = make_board(&["XOX", "XOO", "OXX"]);
    assert_eq!(utility(&b), (true, 0));
}

#[test]
fn utility_row_win_for_o() {
    let b = make_board(&["X X", "OOO", "X  "]);
    assert_eq!(utility(&b), (true, -1));
}

#[test]
fn utility_descending_diagonal_win() {
    let b = make_board(&["XO ", "OX ", "  X"]);
    assert_eq!(utility(&b), (true, 1));
}

#[test]
fn utility_ascending_diagonal_win() {
    let b = make_board(&["X O", " O ", "OX "]);
    assert_eq!(utility(&b), (true, -1));
}

#[test]
fn utility_empty_board_not_terminal() {
    let b = Board::new(3).expect("valid size");
    assert_eq!(utility(&b), (false, 0));
}

#[test]
fn utility_full_board_with_win_reports_the_win() {
    // A full board that holds a completed line must report the win,
    // not a draw.
    let b = make_board(&["XXX", "OOX", "XOO"]);
    assert_eq!(utility(&b), (true, 1));
}

#[test]
fn utility_one_by_one() {
    let b = make_board(&["X"]);
    assert_eq!(utility(&b), (true, 1));
    let b = make_board(&["O"]);
    assert_eq!(utility(&b), (true, -1));
    let b = Board::new(1).expect("valid size");
    assert_eq!(utility(&b), (false, 0));
}

#[test]
fn utility_agrees_with_brute_force_all_2x2_boards() {
    // Every one of the 3^4 two-by-two boards.
    let cells = [' ', 'X', 'O'];
    for code in 0..81usize {
        let mut k: usize = code;
        let mut rows: Vec<Vec<char>> = vec![vec![' '; 2]; 2];
        for r in 0..2 {
            for c in 0..2 {
                rows[r][c] = cells[k % 3];
                k /= 3;
            }
        }
        check_against_brute_force(&rows);
    }
}

#[test]
fn utility_agrees_with_brute_force_all_3x3_boards() {
    // Every one of the 3^9 three-by-three boards.
    let cells = [' ', 'X', 'O'];
    for code in 0..19683usize {
        let mut k: usize = code;
        let mut rows: Vec<Vec<char>> = vec![vec![' '; 3]; 3];
        for r in 0..3 {
            for c in 0..3 {
                rows[r][c] = cells[k % 3];
                k /= 3;
            }
        }
        check_against_brute_force(&rows);
    }
}

#[test]
fn utility_agrees_with_brute_force_sampled_4x4_boards() {
    // Four-by-four boards: all placements of marks over the first
    // eight cells (the rest left blank), plus full-board variants
    // made by mirroring those marks into the lower half.
    let cells = [' ', 'X', 'O'];
    for code in 0..6561usize {
        let mut k: usize = code;
        let mut rows: Vec<Vec<char>> = vec![vec![' '; 4]; 4];
        for r in 0..2 {
            for c in 0..4 {
                rows[r][c] = cells[k % 3];
                k /= 3;
            }
        }
        check_against_brute_force(&rows);
        let mut full = rows.clone();
        for r in 2..4 {
            for c in 0..4 {
                full[r][c] = rows[r - 2][(c + 1) % 4];
            }
        }
        check_against_brute_force(&full);
    }
}

#[test]
fn utility_4x4_column_win() {
    let b = make_board(&["O  X", "OX  ", "O  X", "OX  "]);
    assert_eq!(utility(&b), (true, -1));
}

#[test]
fn array_scores_examples() {
    let all_x = vec![Cell::MarkA, Cell::MarkA, Cell::MarkA];
    assert_eq!(array_scores(&all_x), 1);
    let all_o = vec![Cell::MarkB, Cell::MarkB, Cell::MarkB];
    assert_eq!(array_scores(&all_o), -1);
    let mixed = vec![Cell::MarkA, Cell::MarkB, Cell::MarkA];
    assert_eq!(array_scores(&mixed), 0);
    let leading_blank = vec![Cell::Empty, Cell::MarkA, Cell::MarkA];
    assert_eq!(array_scores(&leading_blank), 0);
    let single = vec![Cell::MarkB];
    assert_eq!(array_scores(&single), -1);
}

#[test]
fn get_col_extracts_a_column() {
    let b = make_board(&["XO ", "XX ", "XO "]);
    let col = get_col(&b, 0);
    assert_eq!(col, vec![Cell::MarkA, Cell::MarkA, Cell::MarkA]);
    let col = get_col(&b, 1);
    assert_eq!(col, vec![Cell::MarkB, Cell::MarkA, Cell::MarkB]);
}

#[test]
fn diagonals_are_extracted_in_the_documented_direction() {
    let b = make_board(&["X O", " X ", "O X"]);
    assert_eq!(
        get_diag_descending(&b),
        vec![Cell::MarkA, Cell::MarkA, Cell::MarkA]
    );
    assert_eq!(
        get_diag_ascending(&b),
        vec![Cell::MarkB, Cell::MarkA, Cell::MarkB]
    );
}

#[test]
fn count_blanks_counts_empty_cells() {
    let b = Board::new(3).expect("valid size");
    assert_eq!(count_blanks(&b), 9);
    let b = make_board(&["XO ", "X O", "X  "]);
    assert_eq!(count_blanks(&b), 4);
    let b = make_board(&["XOX", "XOO", "OXX"]);
    assert_eq!(count_blanks(&b), 0);
}

#[test]
fn board_of_size_zero_is_rejected() {
    assert!(Board::new(0).is_none());
    assert!(Board::new(1).is_some());
}
