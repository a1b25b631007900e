use big_tac_toe::small::{is_full, rate_small, small_winner};

#[test]
fn small_winner_empty_board() {
    assert_eq!(small_winner([[0; 3]; 3]), 0);
}

#[test]
fn small_winner_row_of_x() {
    assert_eq!(small_winner([[0, 0, 0], [1, 1, 1], [0, -1, -1]]), 1);
}

#[test]
fn small_winner_column_of_o() {
    assert_eq!(small_winner([[-1, 1, 0], [-1, 1, 0], [-1, 0, 0]]), -1);
}

#[test]
fn small_winner_diagonals() {
    assert_eq!(small_winner([[1, 0, 0], [0, 1, 0], [0, 0, 1]]), 1);
    assert_eq!(small_winner([[0, 0, -1], [0, -1, 0], [-1, 0, 0]]), -1);
}

#[test]
fn small_winner_first_line_decides() {
    assert_eq!(small_winner([[1, 1, 1], [0, 0, 0], [-1, -1, -1]]), 1);
    assert_eq!(small_winner([[-1, -1, -1], [0, 0, 0], [1, 1, 1]]), -1);
}

#[test]
fn small_winner_doubled_marks_do_not_count() {
    assert_eq!(small_winner([[2, 2, 2], [0, 0, 0], [0, 0, 0]]), 0);
    assert_eq!(small_winner([[1, 1, 2], [0, 0, 0], [0, 0, 0]]), 0);
}

#[test]
fn rate_small_values() {
    assert_eq!(rate_small([[0; 3]; 3]), 0);
    assert_eq!(rate_small([[0, 0, 0], [0, 1, 0], [0, 0, 0]]), 4);
    assert_eq!(rate_small([[1, 0, 0], [0, 0, 0], [0, 0, 0]]), 3);
    assert_eq!(rate_small([[-1, 0, 0], [0, 1, 0], [0, 0, 0]]), 1);
    assert_eq!(rate_small([[1, 1, 1], [0, 0, 0], [0, 0, 0]]), 14);
    assert_eq!(rate_small([[-1, -1, -1], [0, 0, 0], [0, 0, 0]]), -14);
}

#[test]
fn rate_small_blocked_lines_count_nothing() {
    // Row 0 and column 0 hold both marks; row 1 and column 1 hold one O
    // each, the main diagonal one X.
    assert_eq!(rate_small([[1, -1, 0], [-1, 0, 0], [0, 0, 0]]), -1);
}

#[test]
fn is_full_cases() {
    assert!(is_full([[1; 3]; 3]));
    assert!(is_full([[1, -1, 2], [-2, 1, 1], [-1, -1, 1]]));
    assert!(!is_full([[1, 1, 1], [1, 0, 1], [1, 1, 1]]));
}
