use big_tac_toe::game::{trim_line_end, TwoPlayer};

#[test]
fn new_game() {
    let g = TwoPlayer::new();
    assert_eq!(g.board, [[0; 9]; 9]);
    assert_eq!(g.scope, 4);
    assert_eq!(g.player, 1);
    assert_eq!(g.winner(), 0);
}

#[test]
fn play_cell_moves_and_passes_the_turn() {
    let mut g = TwoPlayer::new();
    assert!(g.play_cell(3));
    assert_eq!(g.board[4][3], 1);
    assert_eq!(g.player, -1);
    assert_eq!(g.scope, 3);
    assert!(g.play_cell(8));
    assert_eq!(g.board[5][2], -1);
    assert_eq!(g.player, 1);
    assert_eq!(g.scope, 8);
}

#[test]
fn play_cell_rejects_numbers_past_eight() {
    let mut g = TwoPlayer::new();
    assert!(!g.play_cell(9));
    assert!(!g.play_cell(200));
    assert_eq!(g.board, [[0; 9]; 9]);
    assert_eq!(g.scope, 4);
    assert_eq!(g.player, 1);
}

#[test]
fn play_cell_overwrites_a_taken_cell() {
    let mut g = TwoPlayer::new();
    g.play_cell(4);
    g.play_cell(4);
    assert_eq!(g.board[4][4], -1);
}

#[test]
fn two_player_game_to_a_win() {
    let mut g = TwoPlayer::new();
    let moves: [u8; 45] = [
        7, 7, 4, 1, 6, 6, 2, 0, 7, 1, 8, 8, 7, 3, 0, 3, 6, 0, 8, 2, 3, 7, 6, 3, 1, 4, 5, 4, 2, 6,
        4, 4, 8, 3, 2, 1, 1, 0, 6, 8, 1, 3, 3, 8, 4,
    ];
    for (i, p) in moves.iter().enumerate() {
        assert_eq!(g.winner(), 0);
        assert!(g.play_cell(*p));
        if i + 1 < moves.len() {
            assert_eq!(g.winner(), 0);
        }
    }
    assert_eq!(g.winner(), 1);
    assert_eq!(g.player, -1);
    assert_eq!(g.scope, 4);
}

#[test]
fn trim_line_end_cases() {
    assert_eq!(trim_line_end("5\r\n"), "5");
    assert_eq!(trim_line_end("abc\n"), "abc");
    assert_eq!(trim_line_end("x"), "x");
    assert_eq!(trim_line_end(""), "");
    assert_eq!(trim_line_end("a\r"), "a");
    assert_eq!(trim_line_end("\n\r"), "\n");
    assert_eq!(trim_line_end("a\r\n\n"), "a\r\n");
}
