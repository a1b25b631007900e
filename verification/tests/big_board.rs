use big_tac_toe::big::{get, get_slice, place, winner, Big};

fn numbered() -> Big {
    let mut b: Big = [[0; 9]; 9];
    for r in 0..9 {
        for c in 0..9 {
            b[r][c] = (r * 9 + c) as i8;
        }
    }
    b
}

#[test]
fn get_reads_cell_of_small_board() {
    let b = numbered();
    assert_eq!(get(b, 4, 5), 4 * 9 + 5);
    assert_eq!(get(b, 0, 0), 0);
    assert_eq!(get(b, 8, 8), 80);
    assert_eq!(get(b, 2, 3), 9 + 6);
    // A cell number past 8 reaches further down the big board.
    assert_eq!(get(b, 0, 20), 6 * 9 + 2);
}

#[test]
fn get_slice_is_the_small_board() {
    let b = numbered();
    let s = get_slice(b, 7);
    assert_eq!(s, [[57, 58, 59], [66, 67, 68], [75, 76, 77]]);
    let s0 = get_slice(b, 0);
    assert_eq!(s0, [[0, 1, 2], [9, 10, 11], [18, 19, 20]]);
}

#[test]
fn place_writes_the_mark() {
    let mut b: Big = [[0; 9]; 9];
    place(&mut b, 1, 4, 0);
    let mut expected: Big = [[0; 9]; 9];
    expected[3][3] = 1;
    assert_eq!(b, expected);
    place(&mut b, -1, 2, 7);
    expected[2][7] = -1;
    assert_eq!(b, expected);
    assert_eq!(get(b, 2, 7), -1);
}

#[test]
fn place_in_won_small_board_doubles_the_mark() {
    let mut b: Big = [[0; 9]; 9];
    b[0][0] = 1;
    b[0][1] = 1;
    b[0][2] = 1;
    place(&mut b, -1, 0, 4);
    assert_eq!(b[1][1], -2);
    place(&mut b, 1, 0, 8);
    assert_eq!(b[2][2], 2);
}

#[test]
fn place_overwrites_a_taken_cell() {
    let mut b: Big = [[0; 9]; 9];
    place(&mut b, 1, 3, 3);
    place(&mut b, -1, 3, 3);
    assert_eq!(get(b, 3, 3), -1);
}

#[test]
fn winner_of_big_board() {
    let mut b: Big = [[0; 9]; 9];
    assert_eq!(winner(b), 0);
    // X wins the small boards 0, 1 and 2 through their top rows.
    for c in 0..9 {
        b[0][c] = 1;
    }
    assert_eq!(winner(b), 1);
}

#[test]
fn winner_of_big_board_by_diagonal_of_o() {
    let mut b: Big = [[0; 9]; 9];
    for scope in [2u8, 4, 6] {
        for p in [0u8, 4, 8] {
            place(&mut b, -1, scope, p);
        }
    }
    assert_eq!(winner(b), -1);
}
