use big_tac_toe::big::{get, Big};
use big_tac_toe::tree::{
    build_step, calcmove, computer_turn, domove, getcpmove, human_move, loopstuck, new_tree,
    show_comparison, tryall, updatepred, Board,
};

/// The root (X to move in small board 1 of an empty board), expanded, and
/// its child 5 (X in cell 4), expanded.
fn two_levels() -> Vec<Board> {
    let mut db = new_tree([[0; 9]; 9], 1, 1, None);
    tryall(&mut db, 0);
    tryall(&mut db, 5);
    db
}

fn set_predictions(db: &mut Vec<Board>, first: usize, values: &[Option<i32>]) {
    for (k, v) in values.iter().enumerate() {
        db[first + k].prediction = *v;
    }
}

#[test]
fn new_tree_has_one_node() {
    let db = new_tree([[0; 9]; 9], 1, 1, Some(3));
    assert_eq!(db.len(), 1);
    assert_eq!(db[0].scope, 1);
    assert_eq!(db[0].player, 1);
    assert_eq!(db[0].movenum, 0);
    assert_eq!(db[0].parent, None);
    assert!(db[0].children.is_empty());
    assert_eq!(db[0].prediction, Some(3));
}

#[test]
fn tryall_adds_the_moves_of_the_small_board() {
    let mut db = new_tree([[0; 9]; 9], 1, 1, None);
    tryall(&mut db, 0);
    assert_eq!(db.len(), 10);
    assert_eq!(db[0].children, vec![1, 2, 3, 4, 5, 6, 7, 8, 9]);
    for p in 0..9usize {
        let child = &db[1 + p];
        assert_eq!(child.scope as usize, p);
        assert_eq!(child.player, -1);
        assert_eq!(child.movenum, 1);
        assert_eq!(child.parent, Some(0));
        assert!(child.children.is_empty());
        assert_eq!(child.prediction, None);
        let mut expected: Big = [[0; 9]; 9];
        expected[p / 3][3 + p % 3] = 1;
        assert_eq!(child.brd, expected);
    }
}

#[test]
fn tryall_skips_taken_cells() {
    let db = two_levels();
    // Node 11: O answered in cell 1 of small board 4; X must play in small
    // board 1, where cell 4 is taken.
    let mut db = db;
    assert_eq!(db[11].scope, 1);
    tryall(&mut db, 11);
    assert_eq!(db[11].children, vec![19, 20, 21, 22, 23, 24, 25, 26]);
    let scopes: Vec<u8> = db[11].children.iter().map(|&c| db[c].scope).collect();
    assert_eq!(scopes, vec![0, 1, 2, 3, 5, 6, 7, 8]);
    assert_eq!(db[23].brd[1][5], 1);
    assert_eq!(db[23].movenum, 3);
}

#[test]
fn tryall_on_full_small_board_plays_anywhere() {
    let mut brd: Big = [[0; 9]; 9];
    // Small board 0 is full and nobody has won it.
    let fill = [[1, -1, 1], [1, -1, -1], [-1, 1, 1]];
    for r in 0..3 {
        for c in 0..3 {
            brd[r][c] = fill[r][c];
        }
    }
    let mut db = new_tree(brd, 0, -1, None);
    tryall(&mut db, 0);
    assert_eq!(db.len(), 1 + 72);
    // The first free cell row by row is (0, 3): small board 1, cell 0.
    assert_eq!(db[1].brd[0][3], -1);
    assert_eq!(db[1].scope, 0);
    // The last is (8, 8): small board 8, cell 8.
    assert_eq!(db[72].brd[8][8], -1);
    assert_eq!(db[72].scope, 8);
}

#[test]
fn tryall_on_won_board_adds_nothing() {
    let mut brd: Big = [[0; 9]; 9];
    for c in 0..9 {
        brd[0][c] = 1;
    }
    let mut db = new_tree(brd, 4, -1, None);
    tryall(&mut db, 0);
    assert_eq!(db.len(), 1);
    assert!(db[0].children.is_empty());
}

#[test]
fn tryall_in_won_small_board_doubles_marks() {
    let mut brd: Big = [[0; 9]; 9];
    brd[0][0] = -1;
    brd[1][0] = -1;
    brd[2][0] = -1;
    let mut db = new_tree(brd, 0, 1, None);
    tryall(&mut db, 0);
    assert_eq!(db.len(), 7);
    assert_eq!(db[1].brd[0][1], 2);
}

#[test]
fn human_move_picks_the_child_of_the_cell() {
    let mut db = two_levels();
    assert_eq!(human_move(&db, 0, 4), Some(5));
    assert_eq!(human_move(&db, 0, 0), Some(1));
    assert_eq!(human_move(&db, 0, 9), None);
    tryall(&mut db, 11);
    assert_eq!(human_move(&db, 11, 4), None);
    assert_eq!(human_move(&db, 11, 0), Some(19));
    assert_eq!(human_move(&db, 11, 5), Some(23));
    assert_eq!(get(db[23].brd, 1, 5), 1);
}

#[test]
fn domove_cases() {
    let mut db = two_levels();
    tryall(&mut db, 11);
    // X to move: the child after the empty cells before the cell.
    assert_eq!(domove(&db[11], 5), 23);
    assert_eq!(domove(&db[11], 8), 26);
    // O to move: the child with that number.
    assert_eq!(domove(&db[5], 2), 12);
}

#[test]
fn loopstuck_cases() {
    let mut db = two_levels();
    assert!(loopstuck(&db, 0, 4));
    assert!(!loopstuck(&db, 0, 0));
    tryall(&mut db, 11);
    assert!(!loopstuck(&db, 5, 1));
    assert!(!loopstuck(&db, 5, 0));
}

#[test]
fn obselete_cases() {
    let mut db = two_levels();
    tryall(&mut db, 11);
    assert!(!db[1].obselete(&db, 0));
    assert!(db[1].obselete(&db, 5));
    assert!(!db[19].obselete(&db, 5));
    assert!(!db[19].obselete(&db, 11));
    assert!(db[19].obselete(&db, 1));
    assert!(db[0].obselete(&db, 5));
    assert!(!db[5].obselete(&db, 5));
}

#[test]
fn updatepred_for_x_takes_the_first_greatest() {
    let mut db = two_levels();
    let preds = [Some(3), Some(7), Some(7), Some(1), Some(0), Some(-5), Some(2), Some(7), Some(4)];
    set_predictions(&mut db, 1, &preds);
    assert_eq!(updatepred(&mut db, 0), 1);
    assert_eq!(db[0].prediction, Some(7));
}

#[test]
fn updatepred_with_missing_predictions() {
    let mut db = two_levels();
    let mut preds = [None; 9];
    preds[3] = Some(-4);
    set_predictions(&mut db, 1, &preds);
    assert_eq!(updatepred(&mut db, 0), 3);
    assert_eq!(db[0].prediction, Some(-4));
    set_predictions(&mut db, 1, &[None; 9]);
    assert_eq!(updatepred(&mut db, 0), 8);
    assert_eq!(db[0].prediction, None);
}

#[test]
fn updatepred_for_o_takes_the_first_least() {
    let mut db = two_levels();
    let preds = [Some(5), Some(2), Some(9), Some(9), Some(-2), Some(1), Some(-2), Some(3), Some(4)];
    set_predictions(&mut db, 10, &preds);
    assert_eq!(updatepred(&mut db, 5), 4);
    assert_eq!(db[5].prediction, Some(-2));
}

#[test]
fn updatepred_for_o_two_children() {
    let mut db = two_levels();
    set_predictions(&mut db, 10, &[Some(1), Some(2), Some(3), Some(4), Some(5), Some(6), Some(7), Some(8), Some(9)]);
    assert_eq!(updatepred(&mut db, 5), 0);
    assert_eq!(db[5].prediction, Some(1));
}

#[test]
fn updatepred_leaf_is_unchanged() {
    let mut db = two_levels();
    db[3].prediction = Some(11);
    assert_eq!(updatepred(&mut db, 3), 0);
    assert_eq!(db[3].prediction, Some(11));
}

/// O to move in small board 0, which X has won: the moves go to the small
/// boards 3 to 8. Child 1 (small board 3) is expanded, so from it play can
/// come back to small board 0.
fn stuck_tree() -> Vec<Board> {
    let mut brd: Big = [[0; 9]; 9];
    brd[0][0] = 1;
    brd[0][1] = 1;
    brd[0][2] = 1;
    let mut db = new_tree(brd, 0, -1, None);
    tryall(&mut db, 0);
    tryall(&mut db, 1);
    db
}

#[test]
fn updatepred_for_o_skips_children_that_come_back() {
    let mut db = stuck_tree();
    assert_eq!(db[0].children.len(), 6);
    assert!(loopstuck(&db, 0, 0));
    assert!(!loopstuck(&db, 0, 1));
    set_predictions(&mut db, 1, &[Some(-100), Some(4), Some(1), Some(2), Some(1), Some(3)]);
    assert_eq!(updatepred(&mut db, 0), 2);
    assert_eq!(db[0].prediction, Some(1));
}

#[test]
fn getcpmove_takes_the_least() {
    let mut db = two_levels();
    let preds = [Some(4), Some(-3), Some(8), Some(-3), Some(0), Some(2), Some(9), Some(5), Some(1)];
    set_predictions(&mut db, 10, &preds);
    assert_eq!(getcpmove(&mut db, 5, None), Some((1, -3)));
    assert_eq!(computer_turn(&mut db, 5, None), Some((11, -3)));
}

#[test]
fn getcpmove_without_predictions_finds_nothing() {
    let mut db = two_levels();
    assert_eq!(getcpmove(&mut db, 5, None), None);
    assert_eq!(computer_turn(&mut db, 5, None), None);
}

#[test]
fn getcpmove_skips_children_that_come_back() {
    let mut db = stuck_tree();
    let n = db.len();
    for i in 1..n {
        db[i].prediction = Some(10);
    }
    db[1].prediction = Some(-50);
    db[5].prediction = Some(-7);
    // The search below child 1 gives it the greatest prediction of its
    // children; it could come back to small board 0 anyway.
    assert_eq!(getcpmove(&mut db, 0, None), Some((4, -7)));
    assert_eq!(db[1].prediction, Some(10));
}

#[test]
fn getcpmove_stops_at_the_given_move() {
    let mut db = two_levels();
    let preds = [Some(4), Some(-3), Some(8), Some(-3), Some(0), Some(2), Some(9), Some(5), Some(1)];
    set_predictions(&mut db, 10, &preds);
    set_predictions(&mut db, 1, &[Some(1); 9]);
    db[5].prediction = Some(0);
    // Searching down to move 1 changes nothing: the least is child 4.
    assert_eq!(getcpmove(&mut db, 0, Some(1)), Some((4, 0)));
    assert_eq!(db[5].prediction, Some(0));
    // Without a limit node 5 (O to move) takes the least prediction of its
    // children.
    assert_eq!(getcpmove(&mut db, 0, None), Some((4, -3)));
    assert_eq!(db[5].prediction, Some(-3));
}

#[test]
fn calcmove_updates_bottom_up() {
    let mut db = two_levels();
    tryall(&mut db, 11);
    set_predictions(&mut db, 1, &[Some(0); 9]);
    set_predictions(&mut db, 10, &[Some(1), Some(2), Some(3), Some(4), Some(5), Some(6), Some(7), Some(8), Some(2)]);
    set_predictions(&mut db, 19, &[Some(-1), Some(30), Some(-2), Some(20), Some(0), Some(0), Some(30), Some(1)]);
    calcmove(&mut db, 0, None);
    assert_eq!(db[11].prediction, Some(30));
    assert_eq!(db[5].prediction, Some(1));
    assert_eq!(db[0].prediction, Some(1));
    // Down to move 2 only: node 11 keeps its prediction.
    let mut db2 = two_levels();
    tryall(&mut db2, 11);
    set_predictions(&mut db2, 10, &[Some(1), Some(2), Some(3), Some(4), Some(5), Some(6), Some(7), Some(8), Some(2)]);
    set_predictions(&mut db2, 19, &[Some(-1), Some(30), Some(-2), Some(20), Some(0), Some(0), Some(30), Some(1)]);
    calcmove(&mut db2, 5, Some(2));
    assert_eq!(db2[11].prediction, Some(2));
    assert_eq!(db2[5].prediction, Some(1));
}

#[test]
fn build_step_cases() {
    let mut db = new_tree([[0; 9]; 9], 1, 1, None);
    assert!(build_step(&mut db, 0, 0));
    assert_eq!(db.len(), 10);
    assert!(!build_step(&mut db, 0, 0));
    assert!(build_step(&mut db, 3, 0));
    assert_eq!(db.len(), 19);
    assert!(!build_step(&mut db, 5, 3));
    assert_eq!(db.len(), 19);
    assert!(build_step(&mut db, 5, 5));
    assert_eq!(db.len(), 28);
}

#[test]
fn show_comparison_at_first_move() {
    let mut db = two_levels();
    let mut shown = Vec::new();
    show_comparison(&mut db, 0, 1, &mut shown);
    assert_eq!(shown, vec![1, 2, 3, 4, 5, 6, 7, 8, 9]);
}

#[test]
fn show_comparison_follows_the_best_child() {
    let mut db = two_levels();
    let preds = [Some(5), Some(2), Some(9), Some(9), Some(0), Some(1), Some(-2), Some(3), Some(4)];
    set_predictions(&mut db, 10, &preds);
    let mut shown = vec![100];
    show_comparison(&mut db, 0, 2, &mut shown);
    assert_eq!(shown, vec![100, 16]);
    assert_eq!(db[5].prediction, Some(-2));
}
