//! The big 9x9 board: nine small boards, numbered 0..9 row by row, each
//! with its cells numbered 0..9 row by row.

use vstd::prelude::*;
use crate::small::{Cells, Small, small_cells, same_cells, winner_of, small_winner, lemma_winner_same_cells, line_full_of, line_cell, has_full_line};

verus! {

/// The big board, row by row.
pub type Big = [[i8; 9]; 9];

/// Row of cell `p` of small board `scope`.
pub open spec fn pos_row(scope: int, p: int) -> int {
    (scope / 3) * 3 + p / 3
}

/// Column of cell `p` of small board `scope`.
pub open spec fn pos_col(scope: int, p: int) -> int {
    3 * (scope % 3) + p % 3
}

/// Cell `p` of small board `scope` lies on the big board.
pub open spec fn on_board(scope: int, p: int) -> bool {
    0 <= scope && 0 <= p && pos_row(scope, p) < 9
}

/// The value in cell `p` of small board `scope`.
pub open spec fn get_spec(b: Big, scope: int, p: int) -> int {
    b[pos_row(scope, p)][pos_col(scope, p)] as int
}

/// Small board `scope` as a 3x3 board.
pub open spec fn slice_cells(b: Big, scope: int) -> Cells {
    |r: int, c: int| get_spec(b, scope, 3 * r + c)
}

/// Who has won small board `scope`.
pub open spec fn slice_winner(b: Big, scope: int) -> int {
    winner_of(slice_cells(b, scope))
}

/// The 3x3 board of the winners of the small boards.
pub open spec fn winners_cells(b: Big) -> Cells {
    |r: int, c: int| slice_winner(b, 3 * r + c)
}

/// Who has won the big board: the winner of the board of winners.
pub open spec fn big_winner(b: Big) -> int {
    winner_of(winners_cells(b))
}

/// What a move by `player` on small board `scope` writes: the player's
/// mark, doubled when that small board was already won.
pub open spec fn mark(b: Big, player: i8, scope: int) -> int {
    if slice_winner(b, scope) == 0 { player as int } else { 2 * player }
}

/// `after` is `before` with cell `p` of small board `scope` set to the
/// mark of `player`, and every other cell unchanged.
pub open spec fn placed(before: Big, after: Big, player: i8, scope: int, p: int) -> bool {
    forall|r: int, c: int|
        #![trigger after[r][c]]
        0 <= r < 9 && 0 <= c < 9 ==> after[r][c] == (if r == pos_row(scope, p) && c == pos_col(
            scope,
            p,
        ) {
            mark(before, player, scope)
        } else {
            before[r][c] as int
        })
}

/// The cell at index `idx` of the big board read row by row.
pub open spec fn cell_at(b: Big, idx: int) -> int {
    b[idx / 9][idx % 9] as int
}

/// How many of the first `n` cells of the big board (row by row) are empty.
pub open spec fn empty_upto(b: Big, n: int) -> int
    decreases n,
{
    if n <= 0 {
        0
    } else {
        empty_upto(b, n - 1) + (if cell_at(b, n - 1) == 0 { 1int } else { 0 })
    }
}

/// How many cells of the big board are empty.
pub open spec fn empty_cells(b: Big) -> int {
    empty_upto(b, 81)
}

/// The first `n` cells hold between 0 and `n` empty cells.
pub proof fn lemma_empty_upto_bounds(b: Big, n: int)
    requires
        0 <= n,
    ensures
        0 <= empty_upto(b, n) <= n,
    decreases n,
{
    if n > 0 {
        lemma_empty_upto_bounds(b, n - 1);
    }
}

/// Filling one empty cell leaves one empty cell fewer.
pub proof fn lemma_fill_one(before: Big, after: Big, row: int, col: int, n: int)
    requires
        0 <= row < 9,
        0 <= col < 9,
        0 <= n <= 81,
        before[row][col] == 0,
        after[row][col] != 0,
        forall|r: int, c: int|
            #![trigger after[r][c]]
            0 <= r < 9 && 0 <= c < 9 && !(r == row && c == col) ==> after[r][c] == before[r][c],
    ensures
        empty_upto(after, n) == empty_upto(before, n) - (if row * 9 + col < n { 1int } else { 0 }),
    decreases n,
{
    if n > 0 {
        lemma_fill_one(before, after, row, col, n - 1);
        let i = n - 1;
        assert(0 <= i / 9 < 9 && 0 <= i % 9 < 9);
        if i == row * 9 + col {
            assert(i / 9 == row && i % 9 == col);
        } else {
            assert(!(i / 9 == row && i % 9 == col));
            assert(after[i / 9][i % 9] == before[i / 9][i % 9]);
        }
    }
}

/// The value in cell `p` of small board `scope`.
pub fn get(board: Big, scope: u8, p: u8) -> (v: i8)
    requires
        on_board(scope as int, p as int),
    ensures
        v == get_spec(board, scope as int, p as int),
{
    let p_round: u8 = p / 3;
    let mut scope_round: u8 = scope / 3;
    scope_round = scope_round * 3;
    let r: u8 = scope_round + p_round;
    let c: u8 = 3 * (scope % 3) + (p % 3);
    board[r as usize][c as usize]
}

/// Small board `scope` as a 3x3 board.
pub fn get_slice(board: Big, scope: u8) -> (slice: Small)
    requires
        scope < 9,
    ensures
        same_cells(small_cells(slice), slice_cells(board, scope as int)),
{
    let mut slice: Small = [[0; 3]; 3];
    for row in 0usize..3
        invariant
            scope < 9,
            forall|r: int, c: int|
                #![trigger slice[r][c]]
                0 <= r < row && 0 <= c < 3 ==> slice[r][c] == get_spec(board, scope as int, 3 * r + c),
    {
        for col in 0usize..3
            invariant
                scope < 9,
                row < 3,
                forall|r: int, c: int|
                    #![trigger slice[r][c]]
                    (0 <= r < row && 0 <= c < 3) || (r == row && 0 <= c < col) ==> slice[r][c]
                        == get_spec(board, scope as int, 3 * r + c),
        {
            let v = get(board, scope, (3 * row + col) as u8);
            slice[row][col] = v;
        }
    }
    slice
}

/// Writes the mark of `player` into cell `p` of small board `scope`.
pub fn place(board: &mut Big, player: i8, scope: u8, p: u8)
    requires
        scope < 9,
        on_board(scope as int, p as int),
        slice_winner(*old(board), scope as int) != 0 ==> -64 <= player <= 63,
    ensures
        placed(*old(board), *final(board), player, scope as int, p as int),
{
    let p_round: u8 = p / 3;
    let mut scope_round: u8 = scope / 3;
    scope_round = scope_round * 3;
    let r: u8 = scope_round + p_round;
    let c: u8 = 3 * (scope % 3) + (p % 3);
    let slice = get_slice(*board, scope);
    let ru: usize = r as usize;
    let cu: usize = c as usize;
    let w = small_winner(slice);
    proof {
        lemma_winner_same_cells(small_cells(slice), slice_cells(*old(board), scope as int));
    }
    if w == 0 {
        board[ru][cu] = player;
    } else {
        board[ru][cu] = player * 2;
    }
}

/// Who has won the big board: 1 for X, -1 for O, 0 for nobody.
pub fn winner(board: Big) -> (w: i8)
    ensures
        w == big_winner(board),
        w == 0 || w == 1 || w == -1,
        w != 0 ==> has_full_line(winners_cells(board), w as int),
        w == 0 ==> !has_full_line(winners_cells(board), 1) && !has_full_line(winners_cells(board), -1),
{
    let mut winners: Small = [[0; 3]; 3];
    for b_row in 0usize..3
        invariant
            forall|r: int, c: int|
                #![trigger winners[r][c]]
                0 <= r < b_row && 0 <= c < 3 ==> winners[r][c] == slice_winner(board, 3 * r + c),
    {
        for b_col in 0usize..3
            invariant
                b_row < 3,
                forall|r: int, c: int|
                    #![trigger winners[r][c]]
                    (0 <= r < b_row && 0 <= c < 3) || (r == b_row && 0 <= c < b_col) ==> winners[r][c]
                        == slice_winner(board, 3 * r + c),
        {
            let slice = get_slice(board, (b_row * 3 + b_col) as u8);
            let sw = small_winner(slice);
            proof {
                lemma_winner_same_cells(
                    small_cells(slice),
                    slice_cells(board, (b_row * 3 + b_col) as int),
                );
            }
            winners[b_row][b_col] = sw;
        }
    }
    let w = small_winner(winners);
    proof {
        lemma_winner_same_cells(small_cells(winners), winners_cells(board));
        assert forall|k: int, v: int| 0 <= k < 8 implies #[trigger] line_full_of(small_cells(winners), k, v)
            == line_full_of(winners_cells(board), k, v) by {
            lemma_line_full_same_cells(small_cells(winners), winners_cells(board), k, v);
        }
        if w != 0 {
            let k = choose|k: int| 0 <= k < 8 && line_full_of(small_cells(winners), k, w as int);
            assert(line_full_of(winners_cells(board), k, w as int));
        } else {
            assert(!has_full_line(winners_cells(board), 1) && !has_full_line(winners_cells(board), -1)) by {
                if has_full_line(winners_cells(board), 1) {
                    let k = choose|k: int| 0 <= k < 8 && #[trigger] line_full_of(winners_cells(board), k, 1);
                    assert(line_full_of(small_cells(winners), k, 1));
                }
                if has_full_line(winners_cells(board), -1) {
                    let k = choose|k: int| 0 <= k < 8 && #[trigger] line_full_of(winners_cells(board), k, -1);
                    assert(line_full_of(small_cells(winners), k, -1));
                }
            }
        }
    }
    w
}

/// Whether a line is made of three `v` depends on the nine cells alone.
pub proof fn lemma_line_full_same_cells(f: Cells, g: Cells, k: int, v: int)
    requires
        same_cells(f, g),
        0 <= k < 8,
    ensures
        line_full_of(f, k, v) == line_full_of(g, k, v),
{
    assert(line_cell(f, k, 0) == line_cell(g, k, 0));
    assert(line_cell(f, k, 1) == line_cell(g, k, 1));
    assert(line_cell(f, k, 2) == line_cell(g, k, 2));
}

/// Two cells of small boards that lie on the same square of the big board.
pub open spec fn same_square(s1: int, p1: int, s2: int, p2: int) -> bool {
    pos_row(s1, p1) == pos_row(s2, p2) && pos_col(s1, p1) == pos_col(s2, p2)
}

/// After a move, the cell moved into holds the mover's mark and every other
/// cell holds what it held before.
pub proof fn lemma_get_after_place(before: Big, after: Big, player: i8, scope: int, p: int, s2: int, p2: int)
    requires
        on_board(scope, p),
        on_board(s2, p2),
        placed(before, after, player, scope, p),
    ensures
        get_spec(after, scope, p) == mark(before, player, scope),
        !same_square(scope, p, s2, p2) ==> get_spec(after, s2, p2) == get_spec(before, s2, p2),
{
    assert(0 <= pos_col(scope, p) < 9);
    assert(0 <= pos_col(s2, p2) < 9);
    assert(after[pos_row(scope, p)][pos_col(scope, p)] == mark(before, player, scope));
    assert(after[pos_row(s2, p2)][pos_col(s2, p2)] == (if same_square(scope, p, s2, p2) {
        mark(before, player, scope)
    } else {
        before[pos_row(s2, p2)][pos_col(s2, p2)] as int
    }));
}

} // verus!
