//! Big Tac Toe: the rules of the nine-board game of tic-tac-toe, the
//! game tree that the computer player searches, and the text formats that
//! the programs read and write.

pub mod small;
pub mod big;
pub mod tree;
pub mod text;
pub mod probs;
pub mod game;
