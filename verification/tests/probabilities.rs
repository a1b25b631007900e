use big_tac_toe::probs::{board_to_str, sim_children, small_winner, SimNode};

#[test]
fn board_to_str_adds_one_to_each_cell() {
    assert_eq!(board_to_str(&[[0; 3]; 3]), "111111111");
    assert_eq!(board_to_str(&[[1, -1, 0], [0, 0, 0], [0, 0, 1]]), "201111112");
}

#[test]
fn board_to_str_writes_any_value_in_decimal() {
    assert_eq!(board_to_str(&[[-2, 5, 0], [0, 0, 0], [0, 0, 0]]), "-161111111");
    assert_eq!(board_to_str(&[[99, -128, 126], [0, 0, 0], [0, 0, 0]]), "100-127127111111");
    assert_eq!(board_to_str(&[[9, 0, 0], [0, 0, 0], [0, 0, 0]]), "1011111111");
}

#[test]
fn board_names_differ_for_different_boards() {
    let a = board_to_str(&[[1, 0, 0], [0, 0, 0], [0, 0, 0]]);
    let b = board_to_str(&[[0, 1, 0], [0, 0, 0], [0, 0, 0]]);
    let c = board_to_str(&[[-1, 0, 0], [0, 0, 0], [0, 0, 0]]);
    assert_ne!(a, b);
    assert_ne!(a, c);
    assert_ne!(b, c);
}

#[test]
fn probs_small_winner_by_reference() {
    assert_eq!(small_winner(&[[1, 1, 1], [0, 0, 0], [0, 0, 0]]), 1);
    assert_eq!(small_winner(&[[0, 0, -1], [0, 0, -1], [0, 0, -1]]), -1);
    assert_eq!(small_winner(&[[0; 3]; 3]), 0);
}

fn open(node: SimNode) -> Vec<[[i8; 3]; 3]> {
    match node {
        SimNode::Open(v) => v,
        _ => panic!("the search stops here"),
    }
}

#[test]
fn sim_children_of_empty_board() {
    let v = open(sim_children(&[[0; 3]; 3]));
    assert_eq!(v.len(), 18);
    assert_eq!(v[0], [[1, 0, 0], [0, 0, 0], [0, 0, 0]]);
    assert_eq!(v[1], [[-1, 0, 0], [0, 0, 0], [0, 0, 0]]);
    assert_eq!(v[2], [[0, 1, 0], [0, 0, 0], [0, 0, 0]]);
    assert_eq!(v[17], [[0, 0, 0], [0, 0, 0], [0, 0, -1]]);
}

#[test]
fn sim_children_skip_taken_cells() {
    let v = open(sim_children(&[[1, 0, -1], [0, 0, 0], [-1, 0, 1]]));
    assert_eq!(v.len(), 10);
    assert_eq!(v[0], [[1, 1, -1], [0, 0, 0], [-1, 0, 1]]);
    assert_eq!(v[9], [[1, 0, -1], [0, 0, 0], [-1, -1, 1]]);
}

#[test]
fn sim_children_stop_when_x_has_won() {
    assert!(matches!(sim_children(&[[1, 0, -1], [0, 1, 0], [-1, 0, 1]]), SimNode::XWon));
    assert!(matches!(sim_children(&[[0, 0, 0], [1, 1, 1], [0, 0, 0]]), SimNode::XWon));
}

#[test]
fn sim_children_stop_when_o_has_won() {
    assert!(matches!(sim_children(&[[-1, -1, -1], [0, 0, 0], [0, 0, 0]]), SimNode::OWon));
    assert!(matches!(sim_children(&[[1, 0, -1], [1, -1, 0], [-1, 0, 0]]), SimNode::OWon));
}

#[test]
fn sim_children_of_full_board() {
    let v = open(sim_children(&[[1, -1, 1], [1, -1, -1], [-1, 1, 1]]));
    assert!(v.is_empty());
}
