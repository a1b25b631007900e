//! The text forms of boards: reading a big board from a file, the game
//! record, and the picture shown to the players.

use vstd::prelude::*;
use crate::big::Big;

verus! {

broadcast use vstd::string::group_string_axioms;

/// What reading the first `n` characters of `s` gives: the values read so
/// far and whether a minus sign is pending. A `-` makes the next digit
/// negative, the digits `0`, `1` and `2` are values, anything else is
/// skipped.
pub open spec fn parse_prefix(s: Seq<char>, n: int) -> (Seq<i8>, bool)
    decreases n,
{
    if n <= 0 {
        (seq![], false)
    } else {
        parse_step(parse_prefix(s, n - 1), s[n - 1])
    }
}

/// Reading one more character `ch` after reading the values `st.0`, a minus
/// sign pending when `st.1`.
pub open spec fn parse_step(st: (Seq<i8>, bool), ch: char) -> (Seq<i8>, bool) {
    if ch == '-' {
        (st.0, true)
    } else if ch == '0' || ch == '1' || ch == '2' {
        let d: i8 = if ch == '0' {
            0
        } else if ch == '1' {
            1
        } else {
            2
        };
        (st.0.push(if st.1 { (-d) as i8 } else { d }), false)
    } else {
        st
    }
}

/// The values that reading the whole of `s` gives.
pub open spec fn parse_values(s: Seq<char>) -> Seq<i8> {
    parse_prefix(s, s.len() as int).0
}

/// The board that the values `vals` fill row by row; cells without a value
/// hold 0.
pub open spec fn board_of(vals: Seq<i8>, b: Big) -> bool {
    forall|r: int, c: int|
        0 <= r < 9 && 0 <= c < 9 ==> #[trigger] b[r][c] == (if 9 * r + c < vals.len() {
            vals[9 * r + c]
        } else {
            0i8
        })
}

/// Reads a big board from text: the values (see `parse_prefix`) fill the
/// board row by row; cells without a value hold 0.
pub fn parse_board(contents: String) -> (board: Big)
    requires
        contents.is_ascii(),
        parse_values(contents@).len() <= 81,
    ensures
        board_of(parse_values(contents@), board),
{
    let s = contents.as_str();
    let len = s.unicode_len();
    assert(len == s@.len());
    let mut thisindex: usize = 0;
    let mut negative: i8 = 1;
    let mut board: Big = [[0; 9]; 9];
    let mut curindex: usize = 0;
    while thisindex < len
        invariant
            len == s@.len(),
            s@ == contents@,
            thisindex <= len,
            parse_values(contents@).len() <= 81,
            curindex == parse_prefix(s@, thisindex as int).0.len(),
            curindex <= 81,
            (negative == -1) == parse_prefix(s@, thisindex as int).1,
            negative == 1 || negative == -1,
            forall|r: int, c: int|
                0 <= r < 9 && 0 <= c < 9 ==> #[trigger] board[r][c] == (if 9 * r + c < curindex {
                    parse_prefix(s@, thisindex as int).0[9 * r + c]
                } else {
                    0i8
                }),
        decreases len - thisindex,
    {
        let ghost prev = parse_prefix(s@, thisindex as int);
        let thischar = s.get_char(thisindex);
        let mut number: i8 = -1;
        if thischar == '-' {
            negative = -1;
        } else if thischar == '0' {
            number = 0;
        } else if thischar == '1' {
            number = 1;
        } else if thischar == '2' {
            number = 2;
        }
        if number >= 0 {
            assert(parse_prefix(s@, thisindex + 1).0.len() == curindex + 1);
            proof {
                lemma_parse_prefix_grows(s@, thisindex + 1, s@.len() as int);
            }
            assert(parse_prefix(s@, thisindex + 1).0.len() <= parse_prefix(s@, s@.len() as int).0.len());
            let r = curindex / 9;
            let c = curindex % 9;
            board[r][c] = negative * number;
            proof {
                let next = parse_prefix(s@, thisindex + 1).0;
                assert(next == prev.0.push((negative * number) as i8));
                assert forall|rr: int, cc: int|
                    0 <= rr < 9 && 0 <= cc < 9 implies #[trigger] board[rr][cc] == (if 9 * rr + cc
                        < curindex + 1 {
                        next[9 * rr + cc]
                    } else {
                        0i8
                    }) by {
                    if rr == r && cc == c {
                        assert(9 * rr + cc == curindex);
                    } else {
                        assert(9 * rr + cc != curindex);
                    }
                }
            }
            curindex = curindex + 1;
            negative = 1;
        }
        thisindex = thisindex + 1;
    }
    board
}

/// Reading more characters never takes values back.
proof fn lemma_parse_prefix_grows(s: Seq<char>, m: int, n: int)
    requires
        0 <= m <= n,
    ensures
        forall|k: int| m <= k <= n ==> parse_prefix(s, m).0.len() <= #[trigger] parse_prefix(s, k).0.len(),
    decreases n - m,
{
    if m < n {
        lemma_parse_prefix_grows(s, m + 1, n);
    }
}

/// The bytes that the game record writes for a cell value.
pub open spec fn cell_record(v: i8) -> Seq<u8> {
    if v == -2 {
        seq![45u8, 50u8]
    } else if v == -1 {
        seq![45u8, 49u8]
    } else if v == 0 {
        seq![48u8]
    } else if v == 1 {
        seq![49u8]
    } else if v == 2 {
        seq![50u8]
    } else {
        seq![46u8]
    }
}

/// The record of the first `n` cells of a row: each value and `", "`.
pub open spec fn row_cells_record(row: [i8; 9], n: int) -> Seq<u8>
    decreases n,
{
    if n <= 0 {
        seq![]
    } else {
        row_cells_record(row, n - 1) + cell_record(row[n - 1]) + seq![44u8, 32u8]
    }
}

/// The record of the first `n` rows: each row as `"["`, its cells and
/// `"],\n"`.
pub open spec fn rows_record(b: Big, n: int) -> Seq<u8>
    decreases n,
{
    if n <= 0 {
        seq![]
    } else {
        rows_record(b, n - 1) + seq![91u8] + row_cells_record(b[n - 1], 9) + seq![93u8, 44u8, 10u8]
    }
}

/// The record of a board in the game history: `"\n["`, the rows, `"]"`.
pub open spec fn board_record_spec(b: Big) -> Seq<u8> {
    seq![10u8, 91u8] + rows_record(b, 9) + seq![93u8]
}

/// The record of a board in the game history (see `board_record_spec`).
pub fn board_record(board: Big) -> (out: Vec<u8>)
    ensures
        out@ == board_record_spec(board),
{
    let mut out: Vec<u8> = Vec::new();
    out.push(10u8);
    out.push(91u8);
    for row in 0usize..9
        invariant
            out@ == seq![10u8, 91u8] + rows_record(board, row as int),
    {
        let ghost before = out@;
        out.push(91u8);
        for col in 0usize..9
            invariant
                row < 9,
                out@ == before + seq![91u8] + row_cells_record(board[row as int], col as int),
        {
            let v = board[row][col];
            if v == -2 {
                out.push(45u8);
                out.push(50u8);
            } else if v == -1 {
                out.push(45u8);
                out.push(49u8);
            } else if v == 0 {
                out.push(48u8);
            } else if v == 1 {
                out.push(49u8);
            } else if v == 2 {
                out.push(50u8);
            } else {
                out.push(46u8);
            }
            out.push(44u8);
            out.push(32u8);
        }
        out.push(93u8);
        out.push(44u8);
        out.push(10u8);
    }
    out.push(93u8);
    out
}

/// What the picture shows for cell (`row`, `col`): in a small board that
/// nobody has won, X for 1 and 2, O for -1 and -2, `_` otherwise; in a won
/// small board, its centre shows the winner (or `_` when empty), and the
/// other cells show their own mark while the centre is empty, else `*` for
/// a taken cell.
pub open spec fn glyph(b: Big, row: int, col: int) -> char {
    let scope = (row / 3) * 3 + col / 3;
    let w = crate::big::slice_winner(b, scope);
    let value = b[row][col];
    if w == 0 {
        if value == 1 || value == 2 {
            'X'
        } else if value == -1 || value == -2 {
            'O'
        } else {
            '_'
        }
    } else if row > 0 && col > 0 && (row - 1) % 3 == 0 && (col - 1) % 3 == 0 {
        if value == 0 {
            '_'
        } else if w == 1 {
            'X'
        } else {
            'O'
        }
    } else if b[(row / 3) * 3 + 1][(col / 3) * 3 + 1] == 0 {
        if value == 0 {
            '_'
        } else if value == 1 {
            'X'
        } else {
            'O'
        }
    } else if value == 0 {
        '_'
    } else {
        '*'
    }
}

/// The first `n` cells of row `row` in the picture: a bar before each small
/// board but the first, a space and the glyph for each cell.
pub open spec fn row_text(b: Big, row: int, n: int) -> Seq<char>
    decreases n,
{
    if n <= 0 {
        seq![]
    } else {
        let col = n - 1;
        row_text(b, row, n - 1) + (if col % 3 == 0 && col != 0 {
            seq![' ', '|']
        } else {
            seq![]
        }) + seq![' ', glyph(b, row, col)]
    }
}

/// 23 dashes and a line break: the rule between rows of small boards.
pub open spec fn rule_line() -> Seq<char> {
    Seq::new(23, |i: int| '-').push('\n')
}

/// The first `n` rows of the picture, each a line; a rule before each row of
/// small boards but the first.
pub open spec fn rows_text(b: Big, n: int) -> Seq<char>
    decreases n,
{
    if n <= 0 {
        seq![]
    } else {
        let row = n - 1;
        rows_text(b, n - 1) + (if row % 3 == 0 && row != 0 {
            rule_line()
        } else {
            seq![]
        }) + row_text(b, row, 9) + seq!['\n']
    }
}

/// The picture of a big board: an empty line, the nine rows, an empty line.
pub open spec fn board_text_spec(b: Big) -> Seq<char> {
    seq!['\n'] + rows_text(b, 9) + seq!['\n']
}

/// A space and the glyph `g`.
fn glyph_str(g: char) -> (s: &'static str)
    requires
        g == 'X' || g == 'O' || g == '_' || g == '*',
    ensures
        s@ == seq![' ', g],
{
    if g == 'X' {
        proof {
            reveal_strlit(" X");
        }
        " X"
    } else if g == 'O' {
        proof {
            reveal_strlit(" O");
        }
        " O"
    } else if g == '_' {
        proof {
            reveal_strlit(" _");
        }
        " _"
    } else {
        proof {
            reveal_strlit(" *");
        }
        " *"
    }
}

/// The glyph of cell (`row`, `col`) (see `glyph`).
fn cell_glyph(board: &Big, row: usize, col: usize) -> (g: char)
    requires
        row < 9,
        col < 9,
    ensures
        g == glyph(*board, row as int, col as int),
        g == 'X' || g == 'O' || g == '_' || g == '*',
{
    let scope: u8 = ((row / 3) as u8) * 3 + (col / 3) as u8;
    let sl = crate::big::get_slice(*board, scope);
    let b_winner = crate::small::small_winner(sl);
    proof {
        crate::small::lemma_winner_same_cells(
            crate::small::small_cells(sl),
            crate::big::slice_cells(*board, scope as int),
        );
    }
    let value = board[row][col];
    if b_winner == 0 {
        if value == 1 || value == 2 {
            'X'
        } else if value == -1 || value == -2 {
            'O'
        } else {
            '_'
        }
    } else {
        if row > 0 && col > 0 && (row - 1) % 3 == 0 && (col - 1) % 3 == 0 {
            if board[row][col] == 0 {
                '_'
            } else {
                if b_winner == 1 {
                    'X'
                } else {
                    'O'
                }
            }
        } else {
            if board[(row / 3) * 3 + 1][(col / 3) * 3 + 1] == 0 {
                if value == 0 {
                    '_'
                } else {
                    if value == 1 {
                        'X'
                    } else {
                        'O'
                    }
                }
            } else {
                if value == 0 {
                    '_'
                } else {
                    '*'
                }
            }
        }
    }
}

/// The picture of a big board that the players see (see `board_text_spec`).
pub fn board_text(board: &Big) -> (text: String)
    ensures
        text@ == board_text_spec(*board),
{
    let mut out = String::new();
    proof {
        reveal_strlit("\n");
        reveal_strlit(" |");
        reveal_strlit("-----------------------\n");
    }
    out.append("\n");
    for row in 0usize..9
        invariant
            out@ == seq!['\n'] + rows_text(*board, row as int),
            "\n"@ == seq!['\n'],
            " |"@ == seq![' ', '|'],
            "-----------------------\n"@ == rule_line(),
    {
        if row % 3 == 0 && row != 0 {
            out.append("-----------------------\n");
        }
        let ghost before = out@;
        for col in 0usize..9
            invariant
                row < 9,
                out@ == before + row_text(*board, row as int, col as int),
                " |"@ == seq![' ', '|'],
        {
            if col % 3 == 0 && col != 0 {
                out.append(" |");
            }
            let g = cell_glyph(board, row, col);
            out.append(glyph_str(g));
        }
        out.append("\n");
    }
    out.append("\n");
    out
}

/// Reading the characters `t` after the state `st` (see `parse_step`).
pub open spec fn parse_run(st: (Seq<i8>, bool), t: Seq<char>) -> (Seq<i8>, bool)
    decreases t.len(),
{
    if t.len() == 0 {
        st
    } else {
        parse_step(parse_run(st, t.drop_last()), t.last())
    }
}

/// Bytes read as characters.
pub open spec fn as_chars(v: Seq<u8>) -> Seq<char> {
    v.map_values(|x: u8| x as char)
}

/// Every cell holds a value that the record writes as digits: -2 to 2.
pub open spec fn plain_big(b: Big) -> bool {
    forall|r: int, c: int| 0 <= r < 9 && 0 <= c < 9 ==> -2 <= #[trigger] b[r][c] <= 2
}

/// The cells of a board, row by row.
pub open spec fn flatten(b: Big) -> Seq<i8> {
    Seq::new(81, |k: int| b[k / 9][k % 9])
}

proof fn lemma_parse_prefix_run(s: Seq<char>, n: int)
    requires
        0 <= n <= s.len(),
    ensures
        parse_prefix(s, n) == parse_run((seq![], false), s.take(n)),
    decreases n,
{
    if n > 0 {
        lemma_parse_prefix_run(s, n - 1);
        assert(s.take(n).drop_last() =~= s.take(n - 1));
    }
}

proof fn lemma_parse_run_concat(st: (Seq<i8>, bool), a: Seq<char>, b: Seq<char>)
    ensures
        parse_run(st, a + b) == parse_run(parse_run(st, a), b),
    decreases b.len(),
{
    if b.len() == 0 {
        assert(a + b =~= a);
    } else {
        lemma_parse_run_concat(st, a, b.drop_last());
        assert((a + b).drop_last() =~= a + b.drop_last());
        assert((a + b).last() == b.last());
    }
}

proof fn lemma_as_chars_concat(a: Seq<u8>, b: Seq<u8>)
    ensures
        as_chars(a + b) == as_chars(a) + as_chars(b),
{
    assert(as_chars(a + b) =~= as_chars(a) + as_chars(b));
}

/// Characters that are no digit and no minus sign leave the reading alone.
proof fn lemma_parse_run_skip(st: (Seq<i8>, bool), t: Seq<char>)
    requires
        forall|i: int| 0 <= i < t.len() ==> #[trigger] t[i] != '-' && t[i] != '0' && t[i] != '1' && t[i] != '2',
    ensures
        parse_run(st, t) == st,
    decreases t.len(),
{
    if t.len() > 0 {
        lemma_parse_run_skip(st, t.drop_last());
    }
}

/// The record of one cell and its separator reads back its value.
proof fn lemma_cell_reads_back(vals: Seq<i8>, v: i8)
    requires
        -2 <= v <= 2,
    ensures
        parse_run((vals, false), as_chars(cell_record(v) + seq![44u8, 32u8])) == (vals.push(v), false),
{
    let t = as_chars(cell_record(v) + seq![44u8, 32u8]);
    let sep = seq![',', ' '];
    let st = (vals, false);
    let e = Seq::<char>::empty();
    assert(parse_run(st, e) == st);
    if v < 0 {
        let d: char = if v == -2 { '2' } else { '1' };
        let m = seq!['-'];
        let md = seq!['-', d];
        assert(t =~= md + sep);
        assert(m.drop_last() =~= e);
        assert(parse_run(st, m) == (vals, true));
        assert(md.drop_last() =~= m);
        assert(parse_run(st, md) == parse_step((vals, true), d));
        assert(parse_run(st, md) == (vals.push(v), false));
        lemma_parse_run_concat(st, md, sep);
        lemma_parse_run_skip((vals.push(v), false), sep);
    } else {
        let d: char = if v == 0 { '0' } else if v == 1 { '1' } else { '2' };
        let md = seq![d];
        assert(t =~= md + sep);
        assert(md.drop_last() =~= e);
        assert(parse_run(st, md) == parse_step(st, d));
        assert(parse_run(st, md) == (vals.push(v), false));
        lemma_parse_run_concat(st, md, sep);
        lemma_parse_run_skip((vals.push(v), false), sep);
    }
}

proof fn lemma_row_reads_back(vals: Seq<i8>, row: [i8; 9], n: int)
    requires
        0 <= n <= 9,
        forall|c: int| 0 <= c < 9 ==> -2 <= #[trigger] row[c] <= 2,
    ensures
        parse_run((vals, false), as_chars(row_cells_record(row, n))) == (vals + row@.take(n), false),
    decreases n,
{
    if n == 0 {
        assert(as_chars(row_cells_record(row, 0)) =~= Seq::<char>::empty());
        assert(vals + row@.take(0) =~= vals);
    } else {
        lemma_row_reads_back(vals, row, n - 1);
        let head = row_cells_record(row, n - 1);
        let tail = cell_record(row[n - 1]) + seq![44u8, 32u8];
        assert(row_cells_record(row, n) =~= head + tail);
        lemma_as_chars_concat(head, tail);
        lemma_parse_run_concat((vals, false), as_chars(head), as_chars(tail));
        lemma_cell_reads_back(vals + row@.take(n - 1), row[n - 1]);
        assert((vals + row@.take(n - 1)).push(row[n - 1]) =~= vals + row@.take(n));
    }
}

proof fn lemma_rows_read_back(b: Big, n: int)
    requires
        0 <= n <= 9,
        plain_big(b),
    ensures
        parse_run((seq![], false), as_chars(rows_record(b, n))) == (flatten(b).take(9 * n), false),
    decreases n,
{
    if n == 0 {
        assert(as_chars(rows_record(b, 0)) =~= Seq::<char>::empty());
        assert(flatten(b).take(0) =~= Seq::<i8>::empty());
    } else {
        lemma_rows_read_back(b, n - 1);
        let vals = flatten(b).take(9 * (n - 1));
        let head = rows_record(b, n - 1);
        let open = seq![91u8];
        let cells = row_cells_record(b[n - 1], 9);
        let close = seq![93u8, 44u8, 10u8];
        assert(rows_record(b, n) =~= head + open + cells + close);
        lemma_as_chars_concat(head + open + cells, close);
        lemma_as_chars_concat(head + open, cells);
        lemma_as_chars_concat(head, open);
        lemma_parse_run_concat((seq![], false), as_chars(head), as_chars(open));
        lemma_parse_run_concat((seq![], false), as_chars(head) + as_chars(open), as_chars(cells));
        lemma_parse_run_concat(
            (seq![], false),
            as_chars(head) + as_chars(open) + as_chars(cells),
            as_chars(close),
        );
        assert(as_chars(open) =~= seq!['[']);
        lemma_parse_run_skip((vals, false), as_chars(open));
        assert(forall|c: int| 0 <= c < 9 ==> -2 <= #[trigger] b[n - 1][c] <= 2);
        lemma_row_reads_back(vals, b[n - 1], 9);
        assert(as_chars(close) =~= seq![']', ',', '\n']);
        lemma_parse_run_skip((vals + b[n - 1]@.take(9), false), as_chars(close));
        assert(vals + b[n - 1]@.take(9) =~= flatten(b).take(9 * n)) by {
            assert forall|k: int| 0 <= k < 9 * n implies #[trigger] flatten(b).take(9 * n)[k] == (
            vals + b[n - 1]@.take(9))[k] by {
                if k >= 9 * (n - 1) {
                    assert(k / 9 == n - 1);
                    assert(k % 9 == k - 9 * (n - 1));
                }
            }
        }
    }
}

/// The game record of a board reads back as that board: reading the record
/// (see `parse_board`) gives the 81 cells, row by row, when every cell holds
/// a value from -2 to 2.
pub proof fn lemma_record_reads_back(b: Big)
    requires
        plain_big(b),
    ensures
        parse_values(as_chars(board_record_spec(b))) == flatten(b),
        board_of(parse_values(as_chars(board_record_spec(b))), b),
{
    let s = as_chars(board_record_spec(b));
    let open = seq![10u8, 91u8];
    let rows = rows_record(b, 9);
    let close = seq![93u8];
    lemma_as_chars_concat(open + rows, close);
    lemma_as_chars_concat(open, rows);
    lemma_parse_prefix_run(s, s.len() as int);
    assert(s.take(s.len() as int) =~= s);
    lemma_parse_run_concat((seq![], false), as_chars(open), as_chars(rows));
    lemma_parse_run_concat((seq![], false), as_chars(open) + as_chars(rows), as_chars(close));
    assert(as_chars(open) =~= seq!['\n', '[']);
    lemma_parse_run_skip((seq![], false), as_chars(open));
    lemma_rows_read_back(b, 9);
    assert(as_chars(close) =~= seq![']']);
    lemma_parse_run_skip((flatten(b).take(81), false), as_chars(close));
    assert(flatten(b).take(81) =~= flatten(b));
    assert forall|r: int, c: int| 0 <= r < 9 && 0 <= c < 9 implies #[trigger] b[r][c] == flatten(b)[9 * r + c] by {
        assert((9 * r + c) / 9 == r && (9 * r + c) % 9 == c);
    }
}


/// Where the glyph of cell (`r`, `c`) stands in the picture: in row `r`
/// (see `row_start`), after a space before each cell's glyph up to its own
/// and two characters for each bar to its left.
pub open spec fn cell_pos(r: int, c: int) -> int {
    row_start(r) + 2 * c + 2 * (c / 3) + 1
}

proof fn lemma_row_text_len(b: Big, row: int, n: int)
    requires
        0 <= n <= 9,
    ensures
        row_text(b, row, n).len() == 2 * n + (if n == 0 { 0 } else { 2 * ((n - 1) / 3) }),
    decreases n,
{
    if n > 0 {
        lemma_row_text_len(b, row, n - 1);
    }
}

proof fn lemma_row_text_at(b: Big, row: int, n: int, c: int)
    requires
        0 <= c < n <= 9,
    ensures
        row_text(b, row, n)[2 * c + 2 * (c / 3) + 1] == glyph(b, row, c),
    decreases n,
{
    lemma_row_text_len(b, row, n - 1);
    if c < n - 1 {
        lemma_row_text_at(b, row, n - 1, c);
    }
}

proof fn lemma_rows_text_len(b: Big, n: int)
    requires
        0 <= n <= 9,
    ensures
        rows_text(b, n).len() == 23 * n + (if n == 0 { 0 } else { 24 * ((n - 1) / 3) }),
    decreases n,
{
    if n > 0 {
        lemma_rows_text_len(b, n - 1);
        lemma_row_text_len(b, n - 1, 9);
    }
}

proof fn lemma_rows_text_at(b: Big, n: int, r: int, c: int)
    requires
        0 <= r < n <= 9,
        0 <= c < 9,
    ensures
        rows_text(b, n)[23 * r + 24 * (r / 3) + 2 * c + 2 * (c / 3) + 1] == glyph(b, r, c),
    decreases n,
{
    lemma_rows_text_len(b, n - 1);
    lemma_row_text_len(b, n - 1, 9);
    if r < n - 1 {
        lemma_rows_text_at(b, n - 1, r, c);
    } else {
        lemma_row_text_at(b, r, 9, c);
    }
}

/// The picture has 257 characters, and the character at `cell_pos(r, c)`
/// shows cell (`r`, `c`): in a small board that nobody has won, X for 1 and
/// 2, O for -1 and -2, `_` for an empty cell; in a won small board, the
/// taken centre shows the board's winner whatever mark it holds, and every
/// other taken cell shows its own mark while the centre is empty, and `*`
/// once the centre is taken.
pub proof fn lemma_board_text_cell(b: Big, r: int, c: int)
    requires
        0 <= r < 9,
        0 <= c < 9,
    ensures
        board_text_spec(b).len() == 257,
        0 <= cell_pos(r, c) < 257,
        ({
            let g = board_text_spec(b)[cell_pos(r, c)];
            let w = crate::big::slice_winner(b, (r / 3) * 3 + c / 3);
            let v = b[r][c];
            let centre = r % 3 == 1 && c % 3 == 1;
            let cv = b[(r / 3) * 3 + 1][(c / 3) * 3 + 1];
            &&& w == 0 ==> g == (if v == 1 || v == 2 {
                'X'
            } else if v == -1 || v == -2 {
                'O'
            } else {
                '_'
            })
            &&& w != 0 && centre ==> g == (if v == 0 {
                '_'
            } else if w == 1 {
                'X'
            } else {
                'O'
            })
            &&& w != 0 && !centre && cv == 0 ==> g == (if v == 0 {
                '_'
            } else if v == 1 {
                'X'
            } else {
                'O'
            })
            &&& w != 0 && !centre && cv != 0 ==> g == (if v == 0 {
                '_'
            } else {
                '*'
            })
        }),
{
    lemma_rows_text_len(b, 9);
    lemma_rows_text_at(b, 9, r, c);
    let t = board_text_spec(b);
    assert(t[cell_pos(r, c)] == rows_text(b, 9)[cell_pos(r, c) - 1]);
    assert((r > 0 && c > 0 && (r - 1) % 3 == 0 && (c - 1) % 3 == 0) == (r % 3 == 1 && c % 3 == 1));
}

/// Where row `r` of the picture starts: after the opening line break, 23
/// characters for each earlier row and 24 for each rule above it.
pub open spec fn row_start(r: int) -> int {
    1 + 23 * r + 24 * (r / 3)
}

proof fn lemma_row_text_frame(b: Big, row: int, n: int, c: int)
    requires
        0 <= c < n <= 9,
    ensures
        row_text(b, row, n)[2 * c + 2 * (c / 3)] == ' ',
        c % 3 == 0 && c != 0 ==> row_text(b, row, n)[2 * c + 2 * (c / 3) - 2] == ' ',
        c % 3 == 0 && c != 0 ==> row_text(b, row, n)[2 * c + 2 * (c / 3) - 1] == '|',
    decreases n,
{
    lemma_row_text_len(b, row, n - 1);
    if c < n - 1 {
        lemma_row_text_frame(b, row, n - 1, c);
    }
}

proof fn lemma_rows_text_frame(b: Big, n: int, r: int)
    requires
        0 <= r < n <= 9,
    ensures
        rows_text(b, n)[row_start(r) - 1 + 22] == '\n',
        forall|c: int|
            0 <= c < 9 ==> #[trigger] rows_text(b, n)[row_start(r) - 1 + 2 * c + 2 * (c / 3)] == ' ',
        rows_text(b, n)[row_start(r) - 1 + 6] == ' ',
        rows_text(b, n)[row_start(r) - 1 + 7] == '|',
        rows_text(b, n)[row_start(r) - 1 + 14] == ' ',
        rows_text(b, n)[row_start(r) - 1 + 15] == '|',
        r % 3 == 0 && r != 0 ==> rows_text(b, n)[row_start(r) - 2] == '\n',
        r % 3 == 0 && r != 0 ==> forall|i: int|
            0 <= i < 23 ==> #[trigger] rows_text(b, n)[row_start(r) - 25 + i] == '-',
    decreases n,
{
    lemma_rows_text_len(b, n - 1);
    lemma_row_text_len(b, n - 1, 9);
    if r < n - 1 {
        lemma_rows_text_frame(b, n - 1, r);
    } else {
        assert forall|c: int| 0 <= c < 9 implies #[trigger] rows_text(b, n)[row_start(r) - 1 + 2 * c + 2 * (c / 3)]
            == ' ' by {
            lemma_row_text_frame(b, r, 9, c);
        }
        lemma_row_text_frame(b, r, 9, 3);
        lemma_row_text_frame(b, r, 9, 6);
    }
}

/// The frame of the picture: it starts and ends with a line break; row `r`
/// (from `row_start(r)`) puts a space before each cell's glyph, `" |"`
/// between small boards and a line break after its 22 characters; a rule of
/// 23 dashes and a line break stands above rows 3 and 6.
pub proof fn lemma_board_text_frame(b: Big, r: int)
    requires
        0 <= r < 9,
    ensures
        board_text_spec(b).len() == 257,
        board_text_spec(b)[0] == '\n',
        board_text_spec(b)[256] == '\n',
        board_text_spec(b)[row_start(r) + 22] == '\n',
        forall|c: int|
            0 <= c < 9 ==> #[trigger] board_text_spec(b)[row_start(r) + 2 * c + 2 * (c / 3)] == ' ',
        board_text_spec(b)[row_start(r) + 6] == ' ',
        board_text_spec(b)[row_start(r) + 7] == '|',
        board_text_spec(b)[row_start(r) + 14] == ' ',
        board_text_spec(b)[row_start(r) + 15] == '|',
        r % 3 == 0 && r != 0 ==> board_text_spec(b)[row_start(r) - 1] == '\n',
        r % 3 == 0 && r != 0 ==> forall|i: int|
            0 <= i < 23 ==> #[trigger] board_text_spec(b)[row_start(r) - 24 + i] == '-',
{
    lemma_rows_text_len(b, 9);
    lemma_rows_text_frame(b, 9, r);
    let t = board_text_spec(b);
    let rt = rows_text(b, 9);
    assert forall|k: int| 0 <= k < 255 implies t[k + 1] == #[trigger] rt[k] by {}
    assert forall|c: int| 0 <= c < 9 implies #[trigger] t[row_start(r) + 2 * c + 2 * (c / 3)] == ' ' by {
        assert(rt[row_start(r) - 1 + 2 * c + 2 * (c / 3)] == ' ');
    }
    if r % 3 == 0 && r != 0 {
        assert forall|i: int| 0 <= i < 23 implies #[trigger] t[row_start(r) - 24 + i] == '-' by {
            assert(rt[row_start(r) - 25 + i] == '-');
        }
    }
}

} // verus!
