//! The board-probability table: the names of small boards in the table and
//! the positions that the exhaustive search visits from a small board.

use vstd::prelude::*;
use crate::small::{Cells, Small, small_cells, winner_of};

verus! {

/// The character of a decimal digit.
pub open spec fn digit_char(d: int) -> char {
    if d == 0 {
        '0'
    } else if d == 1 {
        '1'
    } else if d == 2 {
        '2'
    } else if d == 3 {
        '3'
    } else if d == 4 {
        '4'
    } else if d == 5 {
        '5'
    } else if d == 6 {
        '6'
    } else if d == 7 {
        '7'
    } else if d == 8 {
        '8'
    } else {
        '9'
    }
}

/// The decimal digits of `n`.
pub open spec fn digits(n: nat) -> Seq<char>
    decreases n,
{
    if n < 10 {
        seq![digit_char(n as int)]
    } else {
        digits(n / 10).push(digit_char((n % 10) as int))
    }
}

/// `n` written in decimal, with a minus sign when it is negative.
pub open spec fn decimal(n: int) -> Seq<char> {
    if n < 0 {
        seq!['-'] + digits((-n) as nat)
    } else {
        digits(n as nat)
    }
}

/// The name of the first `n` cells (row by row): each value plus one, in
/// decimal.
pub open spec fn name_prefix(b: Small, n: int) -> Seq<char>
    decreases n,
{
    if n <= 0 {
        seq![]
    } else {
        name_prefix(b, n - 1) + decimal(b[(n - 1) / 3][(n - 1) % 3] + 1)
    }
}

/// The name of a small board in the probability table.
pub open spec fn board_name(b: Small) -> Seq<char> {
    name_prefix(b, 9)
}

/// The one-character text of digit `d`.
fn digit_str(d: u8) -> (s: &'static str)
    requires
        d < 10,
    ensures
        s@ == seq![digit_char(d as int)],
{
    proof {
        reveal_strlit("0");
        reveal_strlit("1");
        reveal_strlit("2");
        reveal_strlit("3");
        reveal_strlit("4");
        reveal_strlit("5");
        reveal_strlit("6");
        reveal_strlit("7");
        reveal_strlit("8");
        reveal_strlit("9");
    }
    if d == 0 {
        "0"
    } else if d == 1 {
        "1"
    } else if d == 2 {
        "2"
    } else if d == 3 {
        "3"
    } else if d == 4 {
        "4"
    } else if d == 5 {
        "5"
    } else if d == 6 {
        "6"
    } else if d == 7 {
        "7"
    } else if d == 8 {
        "8"
    } else {
        "9"
    }
}

/// Appends `n` in decimal.
fn append_decimal(out: &mut String, n: i8)
    requires
        n > -128,
    ensures
        final(out)@ == old(out)@ + decimal(n as int),
{
    let m: u8 = if n < 0 {
        proof {
            reveal_strlit("-");
        }
        out.append("-");
        (-n) as u8
    } else {
        n as u8
    };
    let ghost start = if n < 0 { old(out)@ + seq!['-'] } else { old(out)@ };
    assert(out@ == start);
    assert(decimal(n as int) =~= (if n < 0 { seq!['-'] } else { Seq::<char>::empty() }) + digits(m as nat));
    let ghost sign = if n < 0 { seq!['-'] } else { Seq::<char>::empty() };
    if m >= 100 {
        out.append(digit_str(m / 100));
        out.append(digit_str((m / 10) % 10));
        out.append(digit_str(m % 10));
        assert(digits(m as nat) =~= seq![
            digit_char((m / 100) as int),
            digit_char(((m / 10) % 10) as int),
            digit_char((m % 10) as int),
        ]) by {
            assert((m / 10) / 10 == m / 100);
            assert(digits((m / 100) as nat) == seq![digit_char((m / 100) as int)]);
            assert(digits((m / 10) as nat) == digits((m / 100) as nat).push(
                digit_char(((m / 10) % 10) as int),
            ));
        }
        assert(out@ =~= old(out)@ + (sign + digits(m as nat)));
    } else if m >= 10 {
        out.append(digit_str(m / 10));
        out.append(digit_str(m % 10));
        assert(digits(m as nat) =~= seq![digit_char((m / 10) as int), digit_char((m % 10) as int)]) by {
            assert(digits((m / 10) as nat) == seq![digit_char((m / 10) as int)]);
        }
        assert(out@ =~= old(out)@ + (sign + digits(m as nat)));
    } else {
        out.append(digit_str(m));
        assert(out@ =~= old(out)@ + (sign + digits(m as nat)));
    }
}

/// The name of a small board in the probability table: each cell value plus
/// one, in decimal, row by row (see `board_name`).
pub fn board_to_str(board: &Small) -> (name: String)
    requires
        forall|r: int, c: int| 0 <= r < 3 && 0 <= c < 3 ==> #[trigger] board[r][c] != 127,
    ensures
        name@ == board_name(*board),
{
    let mut out = String::new();
    for k in 0usize..9
        invariant
            forall|r: int, c: int| 0 <= r < 3 && 0 <= c < 3 ==> #[trigger] board[r][c] != 127,
            out@ == name_prefix(*board, k as int),
    {
        let v = board[k / 3][k % 3];
        append_decimal(&mut out, v + 1);
    }
    out
}

/// Who has won a small board: 1 for X, -1 for O, 0 for nobody.
pub fn small_winner(board: &Small) -> (w: i8)
    ensures
        w == winner_of(small_cells(*board)),
        w == 0 || w == 1 || w == -1,
        w != 0 ==> crate::small::has_full_line(small_cells(*board), w as int),
        w == 0 ==> !crate::small::has_full_line(small_cells(*board), 1) && !crate::small::has_full_line(
            small_cells(*board),
            -1,
        ),
{
    crate::small::small_winner(*board)
}

/// The empty cells among the first `n` cells (row by row), as cell numbers.
pub open spec fn empty_small(b: Small, n: int) -> Seq<int>
    decreases n,
{
    if n <= 0 {
        seq![]
    } else {
        let prev = empty_small(b, n - 1);
        if b[(n - 1) / 3][(n - 1) % 3] == 0 {
            prev.push(n - 1)
        } else {
            prev
        }
    }
}

/// `after` is `b` with cell `k` (row by row) set to `v`.
pub open spec fn small_set(b: Small, after: Small, k: int, v: int) -> bool {
    forall|r: int, c: int|
        0 <= r < 3 && 0 <= c < 3 ==> #[trigger] after[r][c] == (if 3 * r + c == k {
            v
        } else {
            b[r][c] as int
        })
}

/// The boards after the first `n` moves of the search: for each empty cell
/// in turn, an X there, then an O there.
pub open spec fn sim_next(b: Small, v: Seq<Small>, n: int) -> bool {
    let e = empty_small(b, 9);
    &&& v.len() == 2 * n
    &&& forall|j: int|
        0 <= j < n ==> small_set(b, #[trigger] v[2 * j], e[j], 1) && small_set(
            b,
            v[2 * j + 1],
            e[j],
            -1,
        )
}

/// Where the exhaustive search stands at a small board: its outcome is
/// settled because O or X has won it, or it goes on to the given boards.
pub enum SimNode {
    OWon,
    XWon,
    Open(Vec<Small>),
}

/// The positions that the exhaustive search goes on to from a small board:
/// none when O or X has won it (its outcome is settled), else for each empty
/// cell in turn the board with an X there, then the board with an O there.
pub fn sim_children(board: &Small) -> (next: SimNode)
    ensures
        next is OWon <==> winner_of(small_cells(*board)) == -1,
        next is XWon <==> winner_of(small_cells(*board)) == 1,
        next matches SimNode::Open(v) ==> sim_next(*board, v@, empty_small(*board, 9).len() as int),
{
    let w = crate::small::small_winner(*board);
    if w == -1 {
        return SimNode::OWon;
    } else if w == 1 {
        return SimNode::XWon;
    }
    let mut out: Vec<Small> = Vec::new();
    let ghost e = empty_small(*board, 9);
    proof {
        lemma_empty_small_prefix(*board, 0, 9);
    }
    for row in 0usize..3
        invariant
            e == empty_small(*board, 9),
            forall|m: int| 0 <= m <= 9 ==> #[trigger] empty_small(*board, m).len() <= e.len() && (
            forall|j: int| 0 <= j < empty_small(*board, m).len() ==> e[j] == empty_small(*board, m)[j]),
            sim_next(*board, out@, empty_small(*board, 3 * row as int).len() as int),
    {
        for col in 0usize..3
            invariant
                row < 3,
                e == empty_small(*board, 9),
                forall|m: int| 0 <= m <= 9 ==> #[trigger] empty_small(*board, m).len() <= e.len() && (
                forall|j: int| 0 <= j < empty_small(*board, m).len() ==> e[j] == empty_small(*board, m)[j]),
                sim_next(*board, out@, empty_small(*board, 3 * row + col as int).len() as int),
        {
            let ghost k = 3 * row + col as int;
            assert(k / 3 == row && k % 3 == col);
            if board[row][col] == 0 {
                let mut x = *board;
                x[row][col] = 1;
                let mut o = *board;
                o[row][col] = -1;
                let ghost before = out@;
                let ghost n = empty_small(*board, k).len() as int;
                out.push(x);
                out.push(o);
                proof {
                    lemma_sim_step(*board, before, out@, x, o, row as int, col as int, n);
                }
            } else {
                assert(empty_small(*board, k + 1) == empty_small(*board, k));
                assert(sim_next(*board, out@, empty_small(*board, k + 1).len() as int));
            }
        }
    }
    SimNode::Open(out)
}

proof fn lemma_empty_small_prefix(b: Small, m: int, n: int)
    requires
        0 <= m <= n,
    ensures
        forall|k: int|
            m <= k <= n ==> #[trigger] empty_small(b, k).len() <= empty_small(b, n).len() && (forall|
                j: int,
            |
                0 <= j < empty_small(b, k).len() ==> empty_small(b, n)[j] == empty_small(b, k)[j]),
{
    assert forall|k: int| m <= k <= n implies #[trigger] empty_small(b, k).len() <= empty_small(
        b,
        n,
    ).len() && (forall|j: int|
        0 <= j < empty_small(b, k).len() ==> empty_small(b, n)[j] == empty_small(b, k)[j]) by {
        lemma_empty_small_prefix_one(b, k, n);
    }
}

proof fn lemma_empty_small_prefix_one(b: Small, k: int, n: int)
    requires
        0 <= k <= n,
    ensures
        empty_small(b, k).len() <= empty_small(b, n).len(),
        forall|j: int|
            0 <= j < empty_small(b, k).len() ==> empty_small(b, n)[j] == empty_small(b, k)[j],
    decreases n - k,
{
    if k < n {
        lemma_empty_small_prefix_one(b, k, n - 1);
    }
}

/// Every cell holds -1, 0 or 1.
pub open spec fn plain_small(b: Small) -> bool {
    forall|r: int, c: int| 0 <= r < 3 && 0 <= c < 3 ==> -1 <= #[trigger] b[r][c] <= 1
}

proof fn lemma_name_prefix_chars(b: Small, n: int)
    requires
        plain_small(b),
        0 <= n <= 9,
    ensures
        name_prefix(b, n).len() == n,
        forall|k: int|
            0 <= k < n ==> #[trigger] name_prefix(b, n)[k] == digit_char(b[k / 3][k % 3] + 1),
    decreases n,
{
    if n > 0 {
        lemma_name_prefix_chars(b, n - 1);
        let v = b[(n - 1) / 3][(n - 1) % 3] + 1;
        assert(0 <= v <= 2);
        assert(decimal(v) == seq![digit_char(v)]);
    }
}

/// On boards of plain marks, the name of a board is one digit per cell, so
/// two boards with the same name are the same board.
pub proof fn lemma_board_name_injective(b1: Small, b2: Small)
    requires
        plain_small(b1),
        plain_small(b2),
        board_name(b1) == board_name(b2),
    ensures
        forall|r: int, c: int| 0 <= r < 3 && 0 <= c < 3 ==> #[trigger] b1[r][c] == b2[r][c],
{
    lemma_name_prefix_chars(b1, 9);
    lemma_name_prefix_chars(b2, 9);
    assert forall|r: int, c: int| 0 <= r < 3 && 0 <= c < 3 implies #[trigger] b1[r][c] == b2[r][c] by {
        let k = 3 * r + c;
        assert(k / 3 == r && k % 3 == c);
        assert(name_prefix(b1, 9)[k] == name_prefix(b2, 9)[k]);
        assert(-1 <= b1[r][c] <= 1);
        assert(-1 <= b2[r][c] <= 1);
    }
}

/// The two boards for one more empty cell keep `sim_next`.
proof fn lemma_sim_step(b: Small, before: Seq<Small>, after: Seq<Small>, x: Small, o: Small, row: int, col: int, n: int)
    requires
        0 <= row < 3,
        0 <= col < 3,
        b[row][col] == 0,
        n == empty_small(b, 3 * row + col).len(),
        sim_next(b, before, n),
        after == before.push(x).push(o),
        forall|r: int, c: int| 0 <= r < 3 && 0 <= c < 3 ==> #[trigger] x[r][c] == (if r == row && c == col { 1 } else { b[r][c] as int }),
        forall|r: int, c: int| 0 <= r < 3 && 0 <= c < 3 ==> #[trigger] o[r][c] == (if r == row && c == col { -1 } else { b[r][c] as int }),
    ensures
        sim_next(b, after, n + 1),
{
    let k = 3 * row + col;
    let e = empty_small(b, 9);
    assert(k / 3 == row && k % 3 == col);
    assert(empty_small(b, k + 1) == empty_small(b, k).push(k));
    lemma_empty_small_prefix_one(b, k + 1, 9);
    assert(e[n] == k);
    assert(small_set(b, x, k, 1)) by {
        assert forall|r: int, c: int| 0 <= r < 3 && 0 <= c < 3 implies #[trigger] x[r][c] == (if 3 * r + c == k { 1 } else { b[r][c] as int }) by {
            if 3 * r + c == k {
                assert(r == row && c == col);
            } else {
                assert(!(r == row && c == col));
            }
        }
    }
    assert(small_set(b, o, k, -1)) by {
        assert forall|r: int, c: int| 0 <= r < 3 && 0 <= c < 3 implies #[trigger] o[r][c] == (if 3 * r + c == k { -1 } else { b[r][c] as int }) by {
            if 3 * r + c == k {
                assert(r == row && c == col);
            } else {
                assert(!(r == row && c == col));
            }
        }
    }
    assert forall|j: int| 0 <= j < n + 1 implies small_set(b, #[trigger] after[2 * j], e[j], 1) && small_set(
        b,
        after[2 * j + 1],
        e[j],
        -1,
    ) by {
        if j < n {
            assert(after[2 * j] == before[2 * j]);
            assert(after[2 * j + 1] == before[2 * j + 1]);
        } else {
            assert(after[2 * j] == x);
            assert(after[2 * j + 1] == o);
        }
    }
}

} // verus!
