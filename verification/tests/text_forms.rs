use big_tac_toe::big::{place, Big};
use big_tac_toe::text::{board_record, board_text, parse_board};

fn empty_record() -> String {
    let mut s = String::from("\n[");
    for _ in 0..9 {
        s.push('[');
        for _ in 0..9 {
            s.push_str("0, ");
        }
        s.push_str("],\n");
    }
    s.push(']');
    s
}

#[test]
fn record_of_empty_board() {
    let out = board_record([[0; 9]; 9]);
    assert_eq!(String::from_utf8(out).unwrap(), empty_record());
}

#[test]
fn record_of_marks() {
    let mut b: Big = [[0; 9]; 9];
    b[0][0] = -2;
    b[0][1] = -1;
    b[0][2] = 1;
    b[0][3] = 2;
    b[0][4] = 5;
    let out = String::from_utf8(board_record(b)).unwrap();
    assert!(out.starts_with("\n[[-2, -1, 1, 2, ., 0, 0, 0, 0, ],\n[0, "));
    assert!(out.ends_with("0, ],\n]"));
}

#[test]
fn parse_board_values_fill_rows() {
    let b = parse_board(String::from("1 -1 2 0\n-2"));
    let mut expected: Big = [[0; 9]; 9];
    expected[0][0] = 1;
    expected[0][1] = -1;
    expected[0][2] = 2;
    expected[0][4] = -2;
    assert_eq!(b, expected);
}

#[test]
fn parse_board_skips_other_characters() {
    // The minus sign waits for the next digit; 3 and x are skipped.
    let b = parse_board(String::from("-x1, 3 2"));
    let mut expected: Big = [[0; 9]; 9];
    expected[0][0] = -1;
    expected[0][1] = 2;
    assert_eq!(b, expected);
}

#[test]
fn parse_board_second_row() {
    let text = "0 0 0 0 0 0 0 0 0\n0 1";
    let b = parse_board(String::from(text));
    let mut expected: Big = [[0; 9]; 9];
    expected[1][1] = 1;
    assert_eq!(b, expected);
}

#[test]
fn record_reads_back() {
    let mut b: Big = [[0; 9]; 9];
    for r in 0..9 {
        for c in 0..9 {
            b[r][c] = ((r * 7 + c * 3) % 5) as i8 - 2;
        }
    }
    let text = String::from_utf8(board_record(b)).unwrap();
    assert_eq!(parse_board(text), b);
}

fn plain_line(cells: &str) -> String {
    // cells: nine glyphs
    let g: Vec<char> = cells.chars().collect();
    let mut s = String::new();
    for (i, ch) in g.iter().enumerate() {
        if i % 3 == 0 && i != 0 {
            s.push_str(" |");
        }
        s.push(' ');
        s.push(*ch);
    }
    s.push('\n');
    s
}

fn picture(rows: [&str; 9]) -> String {
    let mut s = String::from("\n");
    for (i, row) in rows.iter().enumerate() {
        if i % 3 == 0 && i != 0 {
            s.push_str("-----------------------\n");
        }
        s.push_str(&plain_line(row));
    }
    s.push('\n');
    s
}

#[test]
fn text_of_empty_board() {
    let t = board_text(&[[0; 9]; 9]);
    assert_eq!(t, picture(["_________"; 9]));
    assert!(t.contains(" _ _ _ | _ _ _ | _ _ _\n"));
}

#[test]
fn text_of_open_small_boards() {
    let mut b: Big = [[0; 9]; 9];
    place(&mut b, 1, 0, 0);
    place(&mut b, -1, 0, 1);
    b[8][8] = 2;
    b[8][7] = -2;
    let mut rows = ["_________"; 9];
    rows[0] = "XO_______";
    rows[8] = "_______OX";
    assert_eq!(board_text(&b), picture(rows));
}

#[test]
fn text_of_won_small_board_with_empty_centre() {
    let mut b: Big = [[0; 9]; 9];
    b[0][0] = 1;
    b[0][1] = 1;
    b[0][2] = 1;
    b[2][0] = -1;
    let mut rows = ["_________"; 9];
    rows[0] = "XXX______";
    rows[2] = "O________";
    assert_eq!(board_text(&b), picture(rows));
}

#[test]
fn text_of_won_small_board_with_taken_centre() {
    let mut b: Big = [[0; 9]; 9];
    b[1][0] = -1;
    b[1][1] = -1;
    b[1][2] = -1;
    b[0][0] = 1;
    let mut rows = ["_________"; 9];
    rows[0] = "*________";
    rows[1] = "*O*______";
    assert_eq!(board_text(&b), picture(rows));
}
