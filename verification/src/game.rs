//! The two-player game: the position, the rules of a move, and the reading
//! of a typed line.

use vstd::prelude::*;
use crate::big::{Big, placed, winner, winners_cells};
use crate::small::has_full_line;

verus! {

/// A two-player game: the big board, the small board that the player to
/// move must play in, and that player (1 for X, -1 for O).
pub struct TwoPlayer {
    pub board: Big,
    pub scope: u8,
    pub player: i8,
}

/// A game in progress keeps a small board in play and a player.
pub open spec fn game_ok(g: TwoPlayer) -> bool {
    g.scope < 9 && (g.player == 1 || g.player == -1)
}

impl TwoPlayer {
    /// The start of a game: an empty board, X to move in the centre board.
    pub fn new() -> (g: TwoPlayer)
        ensures
            game_ok(g),
            g.scope == 4,
            g.player == 1,
            forall|r: int, c: int| 0 <= r < 9 && 0 <= c < 9 ==> #[trigger] g.board[r][c] == 0,
    {
        TwoPlayer { board: [[0; 9]; 9], scope: 4, player: 1 }
    }

    /// The player to move places a mark into cell `p` of the small board in
    /// play, whatever the cell holds; then the other player moves in small
    /// board `p`. A number that is no cell (9 or more) changes nothing.
    /// Tells whether the move was made.
    pub fn play_cell(&mut self, p: u8) -> (moved: bool)
        requires
            game_ok(*old(self)),
        ensures
            game_ok(*final(self)),
            moved == (p < 9),
            moved ==> placed(old(self).board, final(self).board, old(self).player, old(self).scope as int, p as int)
                && final(self).player == -old(self).player && final(self).scope == p,
            !moved ==> *final(self) == *old(self),
    {
        let player = self.player;
        assert(player == 1 || player == -1);
        if p < 9 {
            crate::big::place(&mut self.board, player, self.scope, p);
            self.player = player * -1;
            self.scope = p;
            true
        } else {
            false
        }
    }

    /// Who has won: 1 for X, -1 for O, 0 while the game goes on.
    pub fn winner(&self) -> (w: i8)
        ensures
            w == crate::big::big_winner(self.board),
            w == 0 || w == 1 || w == -1,
            w != 0 ==> has_full_line(winners_cells(self.board), w as int),
            w == 0 ==> !has_full_line(winners_cells(self.board), 1) && !has_full_line(
                winners_cells(self.board),
                -1,
            ),
    {
        winner(self.board)
    }
}

/// `s` without one line feed at its end, then without one carriage return at
/// its end.
pub open spec fn trim_spec(s: Seq<char>) -> Seq<char> {
    let a = if s.len() > 0 && s.last() == '\n' { s.drop_last() } else { s };
    if a.len() > 0 && a.last() == '\r' { a.drop_last() } else { a }
}

/// A typed line without its line ending (see `trim_spec`).
pub fn trim_line_end(line: &str) -> (s: String)
    ensures
        s@ == trim_spec(line@),
{
    let mut n = line.unicode_len();
    if n > 0 && line.get_char(n - 1) == '\n' {
        n = n - 1;
    }
    let ghost a = if line@.len() > 0 && line@.last() == '\n' { line@.drop_last() } else { line@ };
    assert(a == line@.subrange(0, n as int));
    if n > 0 && line.get_char(n - 1) == '\r' {
        n = n - 1;
    }
    String::from_str(line.substring_char(0, n))
}

} // verus!
