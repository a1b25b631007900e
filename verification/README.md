# Big Tac Toe

Nine-board tic-tac-toe ("ultimate" tic-tac-toe) with a computer player that
searches a game tree, verified with Verus.

- `src/small.rs`: one 3x3 board: its winner and its rating.
- `src/big.rs`: the 9x9 board: reading and writing cells of the small
  boards, the winner of the whole board.
- `src/tree.rs`: the game tree: expanding nodes, the background builder's
  step, the search that updates predictions, the moves of both players, and
  the comparison of the computer's choices.
- `src/text.rs`: the game record, the picture of a board, and reading a
  board from text.
- `src/probs.rs`: names of small boards and the positions that the
  probability search visits.
- `src/game.rs`: the two-player game and the reading of a typed line.
- `app/main.rs`: the programs (game, probability table, comparison); the
  floating-point ratings and all input and output live there.

Ratings are floating-point numbers; the tree holds them as integer order
keys, which compare as the ratings do.
