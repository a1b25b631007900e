//! One small 3x3 board: who has won it, how promising it looks.
//!
//! A cell holds 1 for an X, -1 for an O and 0 when it is empty (the big
//! board also writes 2 and -2 into small boards that were already won).
//! The eight lines of a small board are numbered: 0..3 are the rows,
//! 3..6 the columns, 6 the main diagonal and 7 the other diagonal.

use vstd::prelude::*;

verus! {

/// A 3x3 board.
pub type Small = [[i8; 3]; 3];

/// The cells of a 3x3 board as a function of (row, column); only the
/// arguments in `0..3` matter.
pub type Cells = spec_fn(int, int) -> int;

/// The cells of a small board.
pub open spec fn small_cells(b: Small) -> Cells {
    |r: int, c: int| b[r][c] as int
}

/// Two cell functions that agree on the nine cells of a board.
pub open spec fn same_cells(f: Cells, g: Cells) -> bool {
    forall|r: int, c: int| #![trigger f(r, c)] #![trigger g(r, c)] 0 <= r < 3 && 0 <= c < 3 ==> f(r, c) == g(r, c)
}

/// Row of the `i`-th cell of line `k`.
pub open spec fn line_row(k: int, i: int) -> int {
    if k < 3 { k } else { i }
}

/// Column of the `i`-th cell of line `k`.
pub open spec fn line_col(k: int, i: int) -> int {
    if k < 3 {
        i
    } else if k < 6 {
        k - 3
    } else if k == 6 {
        i
    } else {
        2 - i
    }
}

/// The `i`-th cell of line `k`.
pub open spec fn line_cell(b: Cells, k: int, i: int) -> int {
    b(line_row(k, i), line_col(k, i))
}

pub open spec fn is_v(x: int, v: int) -> int {
    if x == v { 1 } else { 0 }
}

/// How many of the first `n` cells of line `k` hold `v`.
pub open spec fn count_prefix(b: Cells, k: int, v: int, n: int) -> int {
    (if n > 0 { is_v(line_cell(b, k, 0), v) } else { 0 })
    + (if n > 1 { is_v(line_cell(b, k, 1), v) } else { 0 })
    + (if n > 2 { is_v(line_cell(b, k, 2), v) } else { 0 })
}

/// How many cells of line `k` hold `v`.
pub open spec fn count_line(b: Cells, k: int, v: int) -> int {
    count_prefix(b, k, v, 3)
}

/// Line `k` is made of three `v`.
pub open spec fn line_full_of(b: Cells, k: int, v: int) -> bool {
    count_line(b, k, v) == 3
}

/// Some line (row, column or diagonal) is made of three `v`.
pub open spec fn has_full_line(b: Cells, v: int) -> bool {
    exists|k: int| 0 <= k < 8 && #[trigger] line_full_of(b, k, v)
}

/// The winner found by looking at lines `k`, `k + 1`, ..., 7 in turn.
pub open spec fn winner_from(b: Cells, k: int) -> int
    decreases 8 - k,
{
    if k >= 8 {
        0
    } else if line_full_of(b, k, 1) {
        1
    } else if line_full_of(b, k, -1) {
        -1
    } else {
        winner_from(b, k + 1)
    }
}

/// The winner of a small board: 1 or -1 after the first line (in the order
/// rows, columns, diagonals) that is three X or three O, else 0.
pub open spec fn winner_of(b: Cells) -> int {
    winner_from(b, 0)
}

/// What line `k` adds to the rating: the square of the number of X minus
/// the square of the number of O, or nothing when both players are in it.
pub open spec fn line_score(b: Cells, k: int) -> int {
    let x = count_line(b, k, 1);
    let o = count_line(b, k, -1);
    if x == 0 || o == 0 { x * x - o * o } else { 0 }
}

/// Sum of the scores of lines `0..n`.
pub open spec fn score_upto(b: Cells, n: int) -> int
    decreases n,
{
    if n <= 0 { 0 } else { score_upto(b, n - 1) + line_score(b, n - 1) }
}

/// The rating of a small board: the sum of the scores of its eight lines.
pub open spec fn rating_of(b: Cells) -> int {
    score_upto(b, 8)
}

/// All nine cells are taken.
pub open spec fn is_full_spec(b: Small) -> bool {
    forall|r: int, c: int| 0 <= r < 3 && 0 <= c < 3 ==> b[r][c] != 0
}

/// The winner depends on the nine cells alone.
pub proof fn lemma_winner_same_cells(f: Cells, g: Cells)
    requires
        same_cells(f, g),
    ensures
        winner_of(f) == winner_of(g),
{
    assert forall|k: int| 0 <= k <= 8 implies winner_from(f, k) == winner_from(g, k) by {
        lemma_winner_from_same_cells(f, g, k);
    }
}

proof fn lemma_winner_from_same_cells(f: Cells, g: Cells, k: int)
    requires
        same_cells(f, g),
        0 <= k <= 8,
    ensures
        winner_from(f, k) == winner_from(g, k),
    decreases 8 - k,
{
    if k < 8 {
        lemma_winner_from_same_cells(f, g, k + 1);
        assert(line_cell(f, k, 0) == line_cell(g, k, 0));
        assert(line_cell(f, k, 1) == line_cell(g, k, 1));
        assert(line_cell(f, k, 2) == line_cell(g, k, 2));
    }
}

/// Counts the X (first) and the O (second) of line `k`.
fn line_counts(board: &Small, k: usize) -> (counts: [i32; 2])
    requires
        k < 8,
    ensures
        counts[0] == count_line(small_cells(*board), k as int, 1),
        counts[1] == count_line(small_cells(*board), k as int, -1),
        0 <= counts[0] <= 3,
        0 <= counts[1] <= 3,
{
    let mut counts: [i32; 2] = [0; 2];
    for i in 0usize..3
        invariant
            k < 8,
            counts[0] == count_prefix(small_cells(*board), k as int, 1, i as int),
            counts[1] == count_prefix(small_cells(*board), k as int, -1, i as int),
    {
        let r: usize = if k < 3 { k } else { i };
        let c: usize = if k < 3 {
            i
        } else if k < 6 {
            k - 3
        } else if k == 6 {
            i
        } else {
            2 - i
        };
        let cell = board[r][c];
        if cell == 1 {
            counts[0] = counts[0] + 1;
        } else if cell == -1 {
            counts[1] = counts[1] + 1;
        }
    }
    counts
}

/// Who has won a small board: 1 for X, -1 for O, 0 for nobody.
pub fn small_winner(board: Small) -> (w: i8)
    ensures
        w == winner_of(small_cells(board)),
        w == 0 || w == 1 || w == -1,
        w != 0 ==> has_full_line(small_cells(board), w as int),
        w == 0 ==> !has_full_line(small_cells(board), 1) && !has_full_line(small_cells(board), -1),
{
    let mut k: usize = 0;
    while k < 8
        invariant
            k <= 8,
            winner_from(small_cells(board), 0) == winner_from(small_cells(board), k as int),
            forall|j: int|
                #![trigger line_full_of(small_cells(board), j, 1)]
                0 <= j < k ==> !line_full_of(small_cells(board), j, 1),
            forall|j: int|
                #![trigger line_full_of(small_cells(board), j, -1)]
                0 <= j < k ==> !line_full_of(small_cells(board), j, -1),
        decreases 8 - k,
    {
        let counts = line_counts(&board, k);
        if counts[0] == 3 {
            return 1;
        } else if counts[1] == 3 {
            return -1;
        }
        assert(!line_full_of(small_cells(board), k as int, 1));
        assert(!line_full_of(small_cells(board), k as int, -1));
        assert(winner_from(small_cells(board), k as int) == winner_from(small_cells(board), k + 1));
        k = k + 1;
    }
    0
}

/// The rating of a small board from X's side (see `rating_of`).
pub fn rate_small(board: Small) -> (total: i32)
    ensures
        total == rating_of(small_cells(board)),
        -72 <= total <= 72,
{
    let mut total: i32 = 0;
    let mut k: usize = 0;
    while k < 8
        invariant
            k <= 8,
            total == score_upto(small_cells(board), k as int),
            -9 * k <= total <= 9 * k,
        decreases 8 - k,
    {
        let counts = line_counts(&board, k);
        let x = counts[0];
        let o = counts[1];
        assert(0 <= x * x <= 9 && 0 <= o * o <= 9) by (nonlinear_arith)
            requires
                0 <= x <= 3,
                0 <= o <= 3,
        ;
        if counts[0] == 0 || counts[1] == 0 {
            total = total + counts[0] * counts[0];
            total = total - counts[1] * counts[1];
        }
        k = k + 1;
    }
    total
}

/// Whether every cell of a small board is taken.
pub fn is_full(board: Small) -> (full: bool)
    ensures
        full == is_full_spec(board),
{
    for row in 0usize..3
        invariant
            forall|r: int, c: int| 0 <= r < row && 0 <= c < 3 ==> board[r][c] != 0,
    {
        for col in 0usize..3
            invariant
                row < 3,
                forall|r: int, c: int| 0 <= r < row && 0 <= c < 3 ==> board[r][c] != 0,
                forall|c: int| 0 <= c < col ==> board[row as int][c] != 0,
        {
            if board[row][col] == 0 {
                return false;
            }
        }
    }
    true
}

/// Line `k` holds at least one X and at least one O.
pub open spec fn blocked(b: Cells, k: int) -> bool {
    count_line(b, k, 1) > 0 && count_line(b, k, -1) > 0
}

/// The rating depends only on how many X and how many O each line holds,
/// and a line that holds both marks counts nothing: two boards whose lines
/// hold the same numbers of X and of O, except for lines that hold both
/// marks on both boards, have the same rating.
pub proof fn lemma_rating_blocked_lines(b1: Cells, b2: Cells)
    requires
        forall|k: int|
            0 <= k < 8 ==> (count_line(b1, k, 1) == count_line(b2, k, 1) && count_line(b1, k, -1)
                == count_line(b2, k, -1)) || (#[trigger] blocked(b1, k) && blocked(b2, k)),
    ensures
        rating_of(b1) == rating_of(b2),
{
    lemma_score_upto_blocked(b1, b2, 8);
}

proof fn lemma_score_upto_blocked(b1: Cells, b2: Cells, n: int)
    requires
        0 <= n <= 8,
        forall|k: int|
            0 <= k < 8 ==> (count_line(b1, k, 1) == count_line(b2, k, 1) && count_line(b1, k, -1)
                == count_line(b2, k, -1)) || (#[trigger] blocked(b1, k) && blocked(b2, k)),
    ensures
        score_upto(b1, n) == score_upto(b2, n),
    decreases n,
{
    if n > 0 {
        lemma_score_upto_blocked(b1, b2, n - 1);
        assert(blocked(b1, n - 1) ==> line_score(b1, n - 1) == 0);
        assert(blocked(b2, n - 1) ==> line_score(b2, n - 1) == 0);
    }
}

/// A board on which every line holds both marks is rated 0, like the empty
/// board.
pub proof fn lemma_rating_all_blocked(b: Cells)
    requires
        forall|k: int| 0 <= k < 8 ==> #[trigger] blocked(b, k),
    ensures
        rating_of(b) == 0,
{
    lemma_score_zero(b, 8);
}

proof fn lemma_score_zero(b: Cells, n: int)
    requires
        0 <= n <= 8,
        forall|k: int| 0 <= k < 8 ==> #[trigger] blocked(b, k),
    ensures
        score_upto(b, n) == 0,
    decreases n,
{
    if n > 0 {
        lemma_score_zero(b, n - 1);
        assert(blocked(b, n - 1));
    }
}

/// The board with every X turned into an O and every O into an X.
pub open spec fn swapped(b: Cells) -> Cells {
    |r: int, c: int| -b(r, c)
}

/// The rating is from X's side: swapping the two players negates it.
pub proof fn lemma_rating_swapped(b: Cells)
    ensures
        rating_of(swapped(b)) == -rating_of(b),
{
    lemma_score_swapped(b, 8);
}

proof fn lemma_score_swapped(b: Cells, n: int)
    requires
        0 <= n <= 8,
    ensures
        score_upto(swapped(b), n) == -score_upto(b, n),
    decreases n,
{
    if n > 0 {
        lemma_score_swapped(b, n - 1);
        let k = n - 1;
        assert(count_line(swapped(b), k, 1) == count_line(b, k, -1));
        assert(count_line(swapped(b), k, -1) == count_line(b, k, 1));
    }
}

} // verus!
