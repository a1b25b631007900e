//! The game tree that the computer player searches.
//!
//! The tree is kept in a vector of nodes: node 0 is the root, every other
//! node names its parent, which stands before it, and a node that has been
//! expanded lists its children, which stand after it, in the order in
//! which its moves are generated (see `moves`).
//!
//! A node's `prediction` is the rating that the search expects for it, as
//! an order key: of two ratings the greater has the greater key, and equal
//! ratings have equal keys.

use vstd::prelude::*;
use crate::big::{
    Big, big_winner, cell_at, empty_cells, get, get_slice, get_spec, on_board, place, placed,
    pos_col, pos_row, slice_cells,
};

verus! {

/// A node of the game tree: a position, the small board that the player
/// to move must play in, and the links of the tree.
#[derive(Clone, Debug)]
pub struct Board {
    pub brd: Big,
    pub scope: u8,
    pub player: i8,
    pub movenum: u8,
    pub parent: Option<usize>,
    pub children: Vec<usize>,
    pub prediction: Option<i32>,
}

/// Small board `scope` has no empty cell.
pub open spec fn slice_full(b: Big, scope: int) -> bool {
    forall|p: int| 0 <= p < 9 ==> #[trigger] get_spec(b, scope, p) != 0
}

/// The moves into the empty cells `p < n` of small board `scope`, as pairs
/// (small board, cell), in the order of the cells.
pub open spec fn local_moves(b: Big, scope: int, n: int) -> Seq<(int, int)>
    decreases n,
{
    if n <= 0 {
        seq![]
    } else {
        let s = local_moves(b, scope, n - 1);
        if get_spec(b, scope, n - 1) == 0 {
            s.push((scope, n - 1))
        } else {
            s
        }
    }
}

/// The move into the cell at index `idx` of the big board (read row by
/// row), as a pair (small board, cell).
pub open spec fn cell_move(idx: int) -> (int, int) {
    let row = idx / 9;
    let col = idx % 9;
    ((row / 3) * 3 + col / 3, (row % 3) * 3 + col % 3)
}

/// The moves into the empty cells at indices `idx < n` of the big board,
/// in the order of the indices.
pub open spec fn global_moves(b: Big, n: int) -> Seq<(int, int)>
    decreases n,
{
    if n <= 0 {
        seq![]
    } else {
        let s = global_moves(b, n - 1);
        if cell_at(b, n - 1) == 0 {
            s.push(cell_move(n - 1))
        } else {
            s
        }
    }
}

/// The moves from a position where the player must play in small board
/// `scope`: none once the big board is won; into any empty cell of the big
/// board when that small board is full; else into the empty cells of that
/// small board.
pub open spec fn moves(b: Big, scope: int) -> Seq<(int, int)> {
    if big_winner(b) != 0 {
        seq![]
    } else if slice_full(b, scope) {
        global_moves(b, 81)
    } else {
        local_moves(b, scope, 9)
    }
}

/// `ch` is the node that move (`s`, `p`) of node `i` (which is `par`) leads to.
pub open spec fn is_child_of(par: Board, ch: Board, i: int, s: int, p: int) -> bool {
    &&& ch.parent == Some(i as usize)
    &&& ch.scope == p
    &&& ch.player == -par.player
    &&& ch.movenum == par.movenum + 1
    &&& placed(par.brd, ch.brd, par.player, s, p)
}

/// The `j`-th child of node `i` stands after it and is what the `j`-th move
/// of node `i` leads to.
pub open spec fn child_ok(db: Seq<Board>, i: int, j: int) -> bool {
    let n = db[i];
    let c = n.children@[j] as int;
    let mv = moves(n.brd, n.scope as int)[j];
    &&& i < c < db.len()
    &&& is_child_of(n, db[c], i, mv.0, mv.1)
}

/// Node `i` is not expanded, or its children are exactly what its moves
/// lead to.
pub open spec fn children_ok(db: Seq<Board>, i: int) -> bool {
    let n = db[i];
    n.children@.len() == 0 || (n.children@.len() == moves(n.brd, n.scope as int).len() && forall|
        j: int,
    |
        0 <= j < n.children@.len() ==> #[trigger] child_ok(db, i, j))
}

/// What each node of the tree keeps.
pub open spec fn node_ok(db: Seq<Board>, i: int) -> bool {
    let n = db[i];
    &&& n.scope < 9
    &&& (n.player == 1 || n.player == -1)
    &&& n.movenum + empty_cells(n.brd) <= 255
    &&& n.movenum >= db[0].movenum
    &&& (i > 0 ==> n.parent is Some && n.parent.unwrap() < i)
    &&& children_ok(db, i)
}

/// A well-formed game tree.
pub open spec fn wf(db: Seq<Board>) -> bool {
    &&& db.len() >= 1
    &&& forall|i: int| 0 <= i < db.len() ==> #[trigger] node_ok(db, i)
}

/// The two big boards hold the same marks.
pub open spec fn same_big(a: Big, b: Big) -> bool {
    forall|r: int, c: int| 0 <= r < 9 && 0 <= c < 9 ==> #[trigger] a[r][c] == b[r][c]
}

/// The first node on the way from node `i` to the root whose move number
/// is at most `m`.
pub open spec fn ancestor_at(db: Seq<Board>, i: int, m: int) -> int
    decreases i,
{
    if 0 <= i < db.len() && db[i].movenum > m && db[i].parent is Some && db[i].parent.unwrap()
        < i {
        ancestor_at(db, db[i].parent.unwrap() as int, m)
    } else {
        i
    }
}

/// The tree with a single node: the given position, at move 0.
pub fn new_tree(brd: Big, scope: u8, player: i8, prediction: Option<i32>) -> (db: Vec<Board>)
    requires
        scope < 9,
        player == 1 || player == -1,
    ensures
        wf(db@),
        db@.len() == 1,
        db@[0].brd == brd,
        db@[0].scope == scope,
        db@[0].player == player,
        db@[0].movenum == 0,
        db@[0].parent is None,
        db@[0].children@.len() == 0,
        db@[0].prediction == prediction,
{
    proof {
        crate::big::lemma_empty_upto_bounds(brd, 81);
    }
    let root = Board {
        brd,
        scope,
        player,
        movenum: 0,
        parent: None,
        children: Vec::new(),
        prediction,
    };
    let mut db: Vec<Board> = Vec::new();
    db.push(root);
    assert(node_ok(db@, 0));
    db
}

/// Whether two big boards hold the same marks.
pub fn same_board(a: &Big, b: &Big) -> (same: bool)
    ensures
        same == same_big(*a, *b),
{
    for row in 0usize..9
        invariant
            forall|r: int, c: int| 0 <= r < row && 0 <= c < 9 ==> #[trigger] a[r][c] == b[r][c],
    {
        for col in 0usize..9
            invariant
                row < 9,
                forall|r: int, c: int| 0 <= r < row && 0 <= c < 9 ==> #[trigger] a[r][c] == b[r][c],
                forall|c: int| 0 <= c < col ==> #[trigger] a[row as int][c] == b[row as int][c],
        {
            if a[row][col] != b[row][col] {
                return false;
            }
        }
    }
    true
}

/// Whether node `b` has left the line of play: its ancestor at the move
/// of node `cur` (or `b` itself) holds another position than node `cur`.
pub open spec fn obsolete_spec(db: Seq<Board>, b: Board, cur: int) -> bool {
    let m = db[cur].movenum as int;
    if b.movenum > m {
        !same_big(db[ancestor_at(db, b.parent.unwrap() as int, m)].brd, db[cur].brd)
    } else {
        !same_big(b.brd, db[cur].brd)
    }
}

/// Some grandchild through child `child` of node `cur` must play in the same
/// small board as node `cur`.
pub open spec fn loopstuck_spec(db: Seq<Board>, cur: int, child: int) -> bool {
    let c = db[cur].children@[child] as int;
    exists|g: int|
        0 <= g < db[c].children@.len() && #[trigger] db[db[c].children@[g] as int].scope
            == db[cur].scope
}

/// The smaller of `n` and 9.
pub open spec fn cap9(n: int) -> int {
    if n < 9 { n } else { 9 }
}

/// The child of node `b` that a move into cell `pindex` leads to: for the X
/// player the child after as many children as small board `scope` has
/// empty cells before `pindex`; for the other player child `pindex`.
pub open spec fn domove_spec(b: Board, pindex: int) -> int {
    if b.player == 1 {
        b.children@[local_moves(b.brd, b.scope as int, cap9(pindex)).len() as int] as int
    } else {
        b.children@[pindex] as int
    }
}

/// `local_moves` only grows with `n`.
pub proof fn lemma_local_moves_prefix(b: Big, s: int, m: int, n: int)
    requires
        0 <= m <= n,
    ensures
        local_moves(b, s, m).len() <= local_moves(b, s, n).len(),
        forall|j: int|
            0 <= j < local_moves(b, s, m).len() ==> #[trigger] local_moves(b, s, n)[j]
                == local_moves(b, s, m)[j],
    decreases n - m,
{
    if m < n {
        lemma_local_moves_prefix(b, s, m, n - 1);
    }
}

/// The move into an empty cell `p` of small board `s` stands in the list of
/// moves after the moves into the empty cells before it.
pub proof fn lemma_local_moves_index(b: Big, s: int, p: int)
    requires
        0 <= p < 9,
        get_spec(b, s, p) == 0,
    ensures
        local_moves(b, s, p).len() < local_moves(b, s, 9).len(),
        local_moves(b, s, 9)[local_moves(b, s, p).len() as int] == (s, p),
{
    lemma_local_moves_prefix(b, s, p + 1, 9);
    assert(local_moves(b, s, p + 1) == local_moves(b, s, p).push((s, p)));
}

impl Board {
    /// Whether this node has left the line of play that leads to node
    /// `curindex` (see `obsolete_spec`).
    pub fn obselete(&self, db: &Vec<Board>, curindex: usize) -> (r: bool)
        requires
            wf(db@),
            curindex < db@.len(),
            self.movenum > db@[curindex as int].movenum ==> self.parent is Some
                && self.parent.unwrap() < db@.len(),
        ensures
            r == obsolete_spec(db@, *self, curindex as int),
    {
        let ogboard = &db[curindex];
        if self.movenum > ogboard.movenum {
            let mut k: usize = self.parent.unwrap();
            let ghost k0 = k as int;
            let ghost m = ogboard.movenum as int;
            while db[k].movenum > ogboard.movenum
                invariant
                    wf(db@),
                    k < db@.len(),
                    curindex < db@.len(),
                    *ogboard == db@[curindex as int],
                    m == ogboard.movenum,
                    ancestor_at(db@, k as int, m) == ancestor_at(db@, k0, m),
                decreases k,
            {
                assert(node_ok(db@, k as int));
                assert(node_ok(db@, 0));
                assert(node_ok(db@, curindex as int));
                k = db[k].parent.unwrap();
            }
            !same_board(&db[k].brd, &ogboard.brd)
        } else {
            !same_board(&self.brd, &ogboard.brd)
        }
    }
}

/// Whether some grandchild through child `child` of node `curindex` must
/// play in the same small board as node `curindex`.
pub fn loopstuck(db: &Vec<Board>, curindex: usize, child: usize) -> (stuck: bool)
    requires
        wf(db@),
        curindex < db@.len(),
        child < db@[curindex as int].children@.len(),
    ensures
        stuck == loopstuck_spec(db@, curindex as int, child as int),
        stuck <==> exists|g: int|
            0 <= g < db@[db@[curindex as int].children@[child as int] as int].children@.len()
                && #[trigger] db@[db@[db@[curindex as int].children@[child as int] as int].children@[g] as int].scope
                == db@[curindex as int].scope,
{
    assert(node_ok(db@, curindex as int));
    assert(child_ok(db@, curindex as int, child as int));
    let stuckboard = db[curindex].scope;
    let c = db[curindex].children[child];
    assert(node_ok(db@, c as int));
    let grandchildren = &db[c].children;
    for grandchild in 0..grandchildren.len()
        invariant
            wf(db@),
            c < db@.len(),
            curindex < db@.len(),
            child < db@[curindex as int].children@.len(),
            *grandchildren == db@[c as int].children,
            stuckboard == db@[curindex as int].scope,
            c == db@[curindex as int].children@[child as int],
            forall|g: int|
                0 <= g < grandchild ==> #[trigger] db@[db@[c as int].children@[g] as int].scope
                    != stuckboard,
    {
        assert(node_ok(db@, c as int));
        assert(child_ok(db@, c as int, grandchild as int));
        if db[grandchildren[grandchild]].scope == stuckboard {
            return true;
        }
    }
    false
}

/// The child of node `board` that a move into cell `pindex` leads to (see
/// `domove_spec`).
pub fn domove(board: &Board, pindex: u8) -> (child: usize)
    requires
        board.player == 1 ==> board.scope < 9,
        board.player == 1 ==> local_moves(board.brd, board.scope as int, cap9(pindex as int)).len()
            < board.children@.len(),
        board.player != 1 ==> pindex < board.children@.len(),
    ensures
        child == domove_spec(*board, pindex as int),
{
    if board.player == 1 {
        let mut veccount: usize = 0;
        for row in 0u8..3
            invariant
                board.scope < 9,
                veccount <= 3 * row,
                veccount == local_moves(board.brd, board.scope as int, cap9(if 3 * row < pindex {
                    3 * row as int
                } else {
                    pindex as int
                })).len(),
        {
            for col in 0u8..3
                invariant
                    board.scope < 9,
                    row < 3,
                    veccount <= 3 * row + col,
                    veccount == local_moves(
                        board.brd,
                        board.scope as int,
                        cap9(if 3 * row + col < pindex {
                            3 * row + col as int
                        } else {
                            pindex as int
                        }),
                    ).len(),
            {
                if row * 3 + col < pindex {
                    if get(board.brd, board.scope, row * 3 + col) == 0 {
                        veccount = veccount + 1;
                    }
                }
            }
        }
        board.children[veccount]
    } else {
        board.children[pindex as usize]
    }
}

/// The X player's move into cell `p` of the small board in play: the child
/// that it leads to, or `None` when `p` is no cell or a taken one.
pub fn human_move(db: &Vec<Board>, curindex: usize, p: u8) -> (next: Option<usize>)
    requires
        wf(db@),
        curindex < db@.len(),
        db@[curindex as int].player == 1,
        p < 9 && get_spec(db@[curindex as int].brd, db@[curindex as int].scope as int, p as int)
            == 0 ==> local_moves(
            db@[curindex as int].brd,
            db@[curindex as int].scope as int,
            p as int,
        ).len() < db@[curindex as int].children@.len(),
    ensures
        next == (if p < 9 && get_spec(
            db@[curindex as int].brd,
            db@[curindex as int].scope as int,
            p as int,
        ) == 0 {
            Some(domove_spec(db@[curindex as int], p as int) as usize)
        } else {
            None::<usize>
        }),
        next matches Some(c) ==> c < db@.len() && is_child_of(
            db@[curindex as int],
            db@[c as int],
            curindex as int,
            db@[curindex as int].scope as int,
            p as int,
        ),
{
    let board = &db[curindex];
    assert(node_ok(db@, curindex as int));
    if p < 9 && get(board.brd, board.scope, p) == 0 {
        let c = domove(board, p);
        proof {
            let b = board.brd;
            let s = board.scope as int;
            lemma_local_moves_index(b, s, p as int);
            assert(!slice_full(b, s));
            assert(child_ok(db@, curindex as int, local_moves(b, s, p as int).len() as int));
        }
        Some(c)
    } else {
        None
    }
}

/// `a` and `b` agree in everything but their lists of children.
pub open spec fn same_but_children(a: Board, b: Board) -> bool {
    &&& a.brd == b.brd
    &&& a.scope == b.scope
    &&& a.player == b.player
    &&& a.movenum == b.movenum
    &&& a.parent == b.parent
    &&& a.prediction == b.prediction
}

/// A fresh node that move `mv` of node `index` of `old` leads to: nothing
/// expanded, nothing predicted.
pub open spec fn fresh_child(old: Seq<Board>, index: int, ch: Board, mv: (int, int)) -> bool {
    &&& is_child_of(old[index], ch, index, mv.0, mv.1)
    &&& ch.scope < 9
    &&& ch.children@.len() == 0
    &&& ch.prediction is None
}

/// `db` is `old` with node `index` given the children that the moves `ms`
/// lead to, appended in order at the end.
pub open spec fn grown(old: Seq<Board>, db: Seq<Board>, index: int, ms: Seq<(int, int)>) -> bool {
    &&& db.len() == old.len() + ms.len()
    &&& forall|k: int| 0 <= k < old.len() && k != index ==> #[trigger] db[k] == old[k]
    &&& same_but_children(db[index], old[index])
    &&& db[index].children@.len() == ms.len()
    &&& forall|j: int|
        0 <= j < ms.len() ==> #[trigger] db[index].children@[j] as int == old.len() + j
    &&& forall|j: int|
        0 <= j < ms.len() ==> #[trigger] fresh_child(old, index, db[old.len() + j], ms[j])
    &&& forall|j: int|
        0 <= j < ms.len() ==> #[trigger] db[old.len() + j].movenum + empty_cells(
            db[old.len() + j].brd,
        ) <= 255
}

/// Nodes that `grown` leaves in place keep their own facts.
proof fn lemma_grown_old_node(old: Seq<Board>, db: Seq<Board>, index: int, i: int)
    requires
        wf(old),
        0 <= index < old.len(),
        0 <= i < old.len(),
        i != index,
        grown(old, db, index, moves(old[index].brd, old[index].scope as int)),
    ensures
        node_ok(db, i),
{
    assert(node_ok(old, i));
    assert(node_ok(old, 0));
    assert(db[i] == old[i]);
    if index == 0 {
        assert(same_but_children(db[0], old[0]));
    } else {
        assert(db[0] == old[0]);
    }
    if db[i].children@.len() != 0 {
        assert forall|j: int| 0 <= j < db[i].children@.len() implies #[trigger] child_ok(
            db,
            i,
            j,
        ) by {
            assert(child_ok(old, i, j));
            let c = old[i].children@[j] as int;
            if c != index {
                assert(db[c] == old[c]);
            } else {
                assert(same_but_children(db[c], old[c]));
            }
        }
    }
}

/// The expanded node keeps its facts and its children are right.
proof fn lemma_grown_index_node(old: Seq<Board>, db: Seq<Board>, index: int)
    requires
        wf(old),
        0 <= index < old.len(),
        grown(old, db, index, moves(old[index].brd, old[index].scope as int)),
    ensures
        node_ok(db, index),
{
    let ms = moves(old[index].brd, old[index].scope as int);
    assert(node_ok(old, index));
    assert(node_ok(old, 0));
    if index == 0 {
        assert(same_but_children(db[0], old[0]));
    } else {
        assert(db[0] == old[0]);
    }
    assert forall|j: int| 0 <= j < db[index].children@.len() implies #[trigger] child_ok(
        db,
        index,
        j,
    ) by {
        assert(fresh_child(old, index, db[old.len() + j], ms[j]));
        assert(db[index].children@[j] as int == old.len() + j);
    }
}

/// The appended children are well-formed nodes.
proof fn lemma_grown_new_node(old: Seq<Board>, db: Seq<Board>, index: int, i: int)
    requires
        wf(old),
        0 <= index < old.len(),
        old.len() <= i < db.len(),
        grown(old, db, index, moves(old[index].brd, old[index].scope as int)),
    ensures
        node_ok(db, i),
{
    let ms = moves(old[index].brd, old[index].scope as int);
    let j = i - old.len();
    assert(node_ok(old, index));
    assert(node_ok(old, 0));
    if index == 0 {
        assert(same_but_children(db[0], old[0]));
    } else {
        assert(db[0] == old[0]);
    }
    assert(fresh_child(old, index, db[old.len() + j], ms[j]));
    assert(db[old.len() + j].movenum + empty_cells(db[old.len() + j].brd) <= 255);
}

/// Growing the children of an unexpanded node by its moves keeps the tree
/// well formed.
proof fn lemma_grown_wf(old: Seq<Board>, db: Seq<Board>, index: int)
    requires
        wf(old),
        0 <= index < old.len(),
        old[index].children@.len() == 0,
        grown(old, db, index, moves(old[index].brd, old[index].scope as int)),
    ensures
        wf(db),
{
    assert forall|i: int| 0 <= i < db.len() implies #[trigger] node_ok(db, i) by {
        if i < old.len() {
            if i != index {
                lemma_grown_old_node(old, db, index, i);
            } else {
                lemma_grown_index_node(old, db, index);
            }
        } else {
            lemma_grown_new_node(old, db, index, i);
        }
    }
}

/// One more child appended keeps `grown`.
proof fn lemma_grow_step(
    old: Seq<Board>,
    before: Seq<Board>,
    after: Seq<Board>,
    index: int,
    pre: Seq<(int, int)>,
    mv: (int, int),
)
    requires
        0 <= index < old.len(),
        grown(old, before, index, pre),
        after.len() == before.len() + 1,
        before.len() <= usize::MAX,
        forall|k: int| 0 <= k < before.len() && k != index ==> #[trigger] after[k] == before[k],
        same_but_children(after[index], before[index]),
        after[index].children@ == before[index].children@.push(before.len() as usize),
        fresh_child(old, index, after[before.len() as int], mv),
        after[before.len() as int].movenum + empty_cells(after[before.len() as int].brd) <= 255,
    ensures
        grown(old, after, index, pre.push(mv)),
{
    let ms = pre.push(mv);
    assert forall|j: int| 0 <= j < ms.len() implies #[trigger] fresh_child(
        old,
        index,
        after[old.len() + j],
        ms[j],
    ) by {
        if j < pre.len() {
            assert(fresh_child(old, index, before[old.len() + j], pre[j]));
            assert(after[old.len() + j] == before[old.len() + j]);
        }
    }
    assert forall|j: int| 0 <= j < ms.len() implies #[trigger] after[old.len() + j].movenum
        + empty_cells(after[old.len() + j].brd) <= 255 by {
        if j < pre.len() {
            assert(before[old.len() + j].movenum + empty_cells(before[old.len() + j].brd) <= 255);
            assert(after[old.len() + j] == before[old.len() + j]);
        }
    }
    assert forall|j: int| 0 <= j < ms.len() implies #[trigger] after[index].children@[j] as int
        == old.len() + j by {
        if j < pre.len() {
            assert(before[index].children@[j] as int == old.len() + j);
        }
    }
    assert forall|k: int| 0 <= k < old.len() && k != index implies #[trigger] after[k] == old[k] by {
        assert(before[k] == old[k]);
    }
}

/// The empty cells of the small board are its cells that hold 0.
proof fn lemma_slice_full(b: Big, scope: int, slice: crate::small::Small)
    requires
        crate::small::same_cells(crate::small::small_cells(slice), slice_cells(b, scope)),
    ensures
        crate::small::is_full_spec(slice) == slice_full(b, scope),
{
    if crate::small::is_full_spec(slice) {
        assert forall|p: int| 0 <= p < 9 implies #[trigger] get_spec(b, scope, p) != 0 by {
            let r = p / 3;
            let c = p % 3;
            assert(crate::small::small_cells(slice)(r, c) == slice_cells(b, scope)(r, c));
            assert(slice[r][c] != 0);
            assert(3 * r + c == p);
        }
    }
    if slice_full(b, scope) {
        assert forall|r: int, c: int| 0 <= r < 3 && 0 <= c < 3 implies slice[r][c] != 0 by {
            assert(crate::small::small_cells(slice)(r, c) == slice_cells(b, scope)(r, c));
            assert(get_spec(b, scope, 3 * r + c) != 0);
        }
    }
}

/// The node that move (`s`, `p`) of node `index` leads to.
fn make_child(parent: &Board, index: usize, s: u8, p: u8) -> (child: Board)
    requires
        parent.scope < 9,
        parent.player == 1 || parent.player == -1,
        parent.movenum + empty_cells(parent.brd) <= 255,
        s < 9,
        p < 9,
        get_spec(parent.brd, s as int, p as int) == 0,
    ensures
        is_child_of(*parent, child, index as int, s as int, p as int),
        child.children@.len() == 0,
        child.prediction is None,
        child.movenum + empty_cells(child.brd) <= 255,
{
    let mut newbrd = parent.brd;
    place(&mut newbrd, parent.player, s, p);
    proof {
        crate::big::lemma_fill_one(
            parent.brd,
            newbrd,
            pos_row(s as int, p as int),
            pos_col(s as int, p as int),
            81,
        );
        crate::big::lemma_empty_upto_bounds(newbrd, 81);
    }
    Board {
        brd: newbrd,
        scope: p,
        player: parent.player * -1,
        movenum: parent.movenum + 1,
        parent: Some(index),
        children: Vec::new(),
        prediction: None,
    }
}

/// Appends `child` and lists it among the children of node `index`.
fn push_child(database: &mut Vec<Board>, index: usize, child: Board)
    requires
        index < old(database)@.len(),
    ensures
        final(database)@.len() == old(database)@.len() + 1,
        old(database)@.len() <= usize::MAX,
        forall|k: int|
            0 <= k < old(database)@.len() && k != index ==> #[trigger] final(database)@[k] == old(
                database,
            )@[k],
        same_but_children(final(database)@[index as int], old(database)@[index as int]),
        final(database)@[index as int].children@ == old(database)@[index as int].children@.push(
            old(database)@.len() as usize,
        ),
        final(database)@[old(database)@.len() as int] == child,
{
    let dblength = database.len();
    database[index].children.push(dblength);
    database.push(child);
}

/// What the expansion of node `index` of `old_db` keeps while it runs:
/// `parent` is a copy of that node without children, and `db` holds the
/// children of the moves `pre` so far.
pub open spec fn expanding(old_db: Seq<Board>, db: Seq<Board>, index: int, parent: Board, pre: Seq<(int, int)>) -> bool {
    &&& wf(old_db)
    &&& 0 <= index < old_db.len()
    &&& node_ok(old_db, index)
    &&& same_but_children(parent, old_db[index])
    &&& grown(old_db, db, index, pre)
}

/// Adds the child for the big-board cell (`row`, `col`) when it is empty.
fn expand_cell(database: &mut Vec<Board>, index: usize, parent: &Board, row: usize, col: usize, Ghost(old_db): Ghost<Seq<Board>>)
    requires
        row < 9,
        col < 9,
        expanding(old_db, old(database)@, index as int, *parent, global_moves(parent.brd, 9 * row + col as int)),
    ensures
        expanding(old_db, final(database)@, index as int, *parent, global_moves(parent.brd, 9 * row + col + 1)),
{
    let ghost pre = global_moves(parent.brd, 9 * row + col as int);
    assert((9 * row + col) / 9 == row && (9 * row + col) % 9 == col as int);
    if parent.brd[row][col] == 0 {
        let p: u8 = ((row % 3) * 3 + col % 3) as u8;
        let s: u8 = ((row / 3) * 3 + col / 3) as u8;
        assert(pos_row(s as int, p as int) == row && pos_col(s as int, p as int) == col);
        let child = make_child(parent, index, s, p);
        let ghost before = database@;
        push_child(database, index, child);
        proof {
            let mv = cell_move(9 * row + col as int);
            assert(mv == (s as int, p as int));
            assert(global_moves(parent.brd, 9 * row + col + 1) == pre.push(mv));
            lemma_grow_step(old_db, before, database@, index as int, pre, mv);
        }
    } else {
        assert(global_moves(parent.brd, 9 * row + col + 1) == pre);
    }
}

/// Adds the child for cell (`row`, `col`) of the small board in play when
/// it is empty; `myslice` is that small board.
fn expand_slice_cell(
    database: &mut Vec<Board>,
    index: usize,
    parent: &Board,
    myslice: &crate::small::Small,
    row: usize,
    col: usize,
    Ghost(old_db): Ghost<Seq<Board>>,
)
    requires
        row < 3,
        col < 3,
        crate::small::same_cells(crate::small::small_cells(*myslice), slice_cells(parent.brd, parent.scope as int)),
        expanding(old_db, old(database)@, index as int, *parent, local_moves(parent.brd, parent.scope as int, 3 * row + col as int)),
    ensures
        expanding(old_db, final(database)@, index as int, *parent, local_moves(parent.brd, parent.scope as int, 3 * row + col + 1)),
{
    let scope = parent.scope;
    let ghost pre = local_moves(parent.brd, scope as int, 3 * row + col as int);
    assert(crate::small::small_cells(*myslice)(row as int, col as int) == slice_cells(parent.brd, scope as int)(row as int, col as int));
    if myslice[row][col] == 0 {
        let p: u8 = (row * 3 + col) as u8;
        let child = make_child(parent, index, scope, p);
        let ghost before = database@;
        push_child(database, index, child);
        proof {
            let mv = (scope as int, p as int);
            assert(local_moves(parent.brd, scope as int, 3 * row + col + 1) == pre.push(mv));
            lemma_grow_step(old_db, before, database@, index as int, pre, mv);
        }
    } else {
        assert(local_moves(parent.brd, scope as int, 3 * row + col + 1) == pre);
    }
}

/// Expands node `index`: unless the big board is won, appends one child for
/// each move of the node (see `moves`), in order, and lists them as its
/// children. The new children have no prediction yet.
pub fn tryall(database: &mut Vec<Board>, index: usize)
    requires
        wf(old(database)@),
        index < old(database)@.len(),
        old(database)@[index as int].children@.len() == 0,
    ensures
        wf(final(database)@),
        grown(
            old(database)@,
            final(database)@,
            index as int,
            moves(old(database)@[index as int].brd, old(database)@[index as int].scope as int),
        ),
{
    let ghost old_db = database@;
    assert(node_ok(old_db, index as int));
    let parent = Board {
        brd: database[index].brd,
        scope: database[index].scope,
        player: database[index].player,
        movenum: database[index].movenum,
        parent: database[index].parent,
        children: Vec::new(),
        prediction: database[index].prediction,
    };
    let brd = parent.brd;
    let scope = parent.scope;
    assert(grown(old_db, database@, index as int, seq![]));
    if crate::big::winner(brd) == 0 {
        let myslice = get_slice(brd, scope);
        proof {
            lemma_slice_full(brd, scope as int, myslice);
        }
        if crate::small::is_full(myslice) {
            for row in 0usize..9
                invariant
                    expanding(old_db, database@, index as int, parent, global_moves(parent.brd, 9 * row as int)),
            {
                for col in 0usize..9
                    invariant
                        row < 9,
                        expanding(old_db, database@, index as int, parent, global_moves(parent.brd, 9 * row + col as int)),
                {
                    expand_cell(database, index, &parent, row, col, Ghost(old_db));
                }
            }
        } else {
            for row in 0usize..3
                invariant
                    crate::small::same_cells(crate::small::small_cells(myslice), slice_cells(parent.brd, parent.scope as int)),
                    expanding(old_db, database@, index as int, parent, local_moves(parent.brd, parent.scope as int, 3 * row as int)),
            {
                for col in 0usize..3
                    invariant
                        row < 3,
                        crate::small::same_cells(crate::small::small_cells(myslice), slice_cells(parent.brd, parent.scope as int)),
                        expanding(old_db, database@, index as int, parent, local_moves(parent.brd, parent.scope as int, 3 * row + col as int)),
                {
                    expand_slice_cell(database, index, &parent, &myslice, row, col, Ghost(old_db));
                }
            }
        }
    }
    proof {
        lemma_grown_wf(old_db, database@, index as int);
    }
}

/// One step of the background builder: expands node `curin` when it has not
/// left the line of play that leads to node `curindex` and has not been
/// expanded yet. Tells whether it did.
pub fn build_step(database: &mut Vec<Board>, curin: usize, curindex: usize) -> (expanded: bool)
    requires
        wf(old(database)@),
        curin < old(database)@.len(),
        curindex < old(database)@.len(),
    ensures
        wf(final(database)@),
        expanded == (!obsolete_spec(old(database)@, old(database)@[curin as int], curindex as int)
            && old(database)@[curin as int].children@.len() == 0),
        expanded ==> grown(
            old(database)@,
            final(database)@,
            curin as int,
            moves(old(database)@[curin as int].brd, old(database)@[curin as int].scope as int),
        ),
        !expanded ==> final(database)@ == old(database)@,
{
    assert(node_ok(database@, curin as int));
    assert(node_ok(database@, curindex as int));
    assert(node_ok(database@, 0));
    let thisboard = &database[curin];
    if !thisboard.obselete(database, curindex) && thisboard.children.len() == 0 {
        tryall(database, curin);
        true
    } else {
        false
    }
}

/// `a` and `b` agree in everything but their predictions.
pub open spec fn same_shape(a: Board, b: Board) -> bool {
    &&& a.brd == b.brd
    &&& a.scope == b.scope
    &&& a.player == b.player
    &&& a.movenum == b.movenum
    &&& a.parent == b.parent
    &&& a.children@ == b.children@
}

/// The two trees agree in everything but the predictions of their nodes.
pub open spec fn same_shapes(a: Seq<Board>, b: Seq<Board>) -> bool {
    &&& a.len() == b.len()
    &&& forall|i: int| 0 <= i < a.len() ==> #[trigger] same_shape(a[i], b[i])
}

/// Well-formedness does not look at predictions.
pub proof fn lemma_same_shapes_wf(a: Seq<Board>, b: Seq<Board>)
    requires
        wf(a),
        same_shapes(a, b),
    ensures
        wf(b),
{
    assert(same_shape(a[0], b[0]));
    assert forall|i: int| 0 <= i < b.len() implies #[trigger] node_ok(b, i) by {
        assert(node_ok(a, i));
        assert(same_shape(a[i], b[i]));
        if b[i].children@.len() != 0 {
            assert forall|j: int| 0 <= j < b[i].children@.len() implies #[trigger] child_ok(
                b,
                i,
                j,
            ) by {
                assert(child_ok(a, i, j));
                let c = a[i].children@[j] as int;
                assert(same_shape(a[c], b[c]));
            }
        }
    }
}

/// Node `b` with prediction `p`.
pub open spec fn with_prediction(b: Board, p: Option<i32>) -> Board {
    Board {
        brd: b.brd,
        scope: b.scope,
        player: b.player,
        movenum: b.movenum,
        parent: b.parent,
        children: b.children,
        prediction: p,
    }
}

/// Rating `a` is greater than rating `b`; no rating is below every rating.
pub open spec fn opt_greater(a: Option<i32>, b: Option<i32>) -> bool {
    match (a, b) {
        (Some(x), Some(y)) => x > y,
        (Some(_), None) => true,
        _ => false,
    }
}

/// Child `j` of node `cur` may be chosen by the O player: not when the small
/// board in play at node `cur` is won and the child lets play come back to
/// that small board.
pub open spec fn not_stuck(db: Seq<Board>, cur: int, j: int) -> bool {
    !(slice_winner_of(db[cur]) != 0 && loopstuck_spec(db, cur, j))
}

/// Who has won the small board in play at node `b`.
pub open spec fn slice_winner_of(b: Board) -> int {
    crate::small::winner_of(slice_cells(b.brd, b.scope as int))
}

/// Child `j` may be chosen at node `cur`: any child when X is to move, else
/// see `not_stuck`.
pub open spec fn choosable(db: Seq<Board>, cur: int, j: int) -> bool {
    db[cur].player == 1 || not_stuck(db, cur, j)
}

/// The prediction of child `j` of node `cur`.
pub open spec fn child_prediction(db: Seq<Board>, cur: int, j: int) -> Option<i32> {
    db[db[cur].children@[j] as int].prediction
}

/// Rating `a` is better than rating `b` for the player to move at node `cur`:
/// greater for X, smaller for O (no rating is below every rating).
pub open spec fn prefers(db: Seq<Board>, cur: int, a: Option<i32>, b: Option<i32>) -> bool {
    if db[cur].player == 1 {
        opt_greater(a, b)
    } else {
        opt_greater(b, a)
    }
}

/// The best of the first `n` choosable children of node `cur` for the player
/// to move there, as (rating, child number): a child replaces the best so
/// far when nothing is chosen yet or its prediction is better (greater for
/// X, smaller for O).
pub open spec fn pick_best(db: Seq<Board>, cur: int, n: int) -> (Option<i32>, int)
    decreases n,
{
    if n <= 0 {
        (None, 0)
    } else {
        let prev = pick_best(db, cur, n - 1);
        let pr = child_prediction(db, cur, n - 1);
        if choosable(db, cur, n - 1) && (prev.0 is None || prefers(db, cur, pr, prev.0)) {
            (pr, n - 1)
        } else {
            prev
        }
    }
}

/// The tree after node `cur` takes the prediction of its best child.
pub open spec fn updated(db: Seq<Board>, cur: int) -> Seq<Board> {
    if db[cur].children@.len() > 0 {
        db.update(cur, with_prediction(db[cur], pick_best(db, cur, db[cur].children@.len() as int).0))
    } else {
        db
    }
}

/// Whether rating `a` is greater than rating `b`, no rating being below every
/// rating.
fn opt_gt(a: Option<i32>, b: Option<i32>) -> (r: bool)
    ensures
        r == opt_greater(a, b),
{
    match (a, b) {
        (Some(x), Some(y)) => x > y,
        (Some(_), None) => true,
        _ => false,
    }
}

/// Sets the prediction of node `curindex` to that of its best child for the
/// player to move there (the greatest for X, the least for O; see
/// `pick_best`) and returns the number of that child; leaves a node without
/// children alone and returns 0.
pub fn updatepred(db: &mut Vec<Board>, curindex: usize) -> (best: usize)
    requires
        wf(old(db)@),
        curindex < old(db)@.len(),
    ensures
        final(db)@ == updated(old(db)@, curindex as int),
        wf(final(db)@),
        same_shapes(old(db)@, final(db)@),
        best == (if old(db)@[curindex as int].children@.len() > 0 {
            pick_best(old(db)@, curindex as int, old(db)@[curindex as int].children@.len() as int).1
        } else {
            0
        }),
        old(db)@[curindex as int].children@.len() > 0 ==> best < old(db)@[curindex as int].children@.len(),
        old(db)@[curindex as int].children@.len() > 0 && old(db)@[curindex as int].player != 1
            && final(db)@[curindex as int].prediction is Some ==> ({
            let d = old(db)@;
            let ch = d[curindex as int].children@[best as int] as int;
            slice_winner_of(d[curindex as int]) != 0 ==> forall|g: int|
                0 <= g < d[ch].children@.len() ==> #[trigger] d[d[ch].children@[g] as int].scope
                    != d[curindex as int].scope
        }),
{
    let ghost d = db@;
    assert(node_ok(d, curindex as int));
    let n = db[curindex].children.len();
    if n > 0 {
        let mut rate: Option<i32> = None;
        let mut index: usize = 0;
        let haswon = if db[curindex].player == 1 {
            false
        } else {
            let sl = get_slice(db[curindex].brd, db[curindex].scope);
            let w = crate::small::small_winner(sl);
            proof {
                crate::small::lemma_winner_same_cells(
                    crate::small::small_cells(sl),
                    slice_cells(d[curindex as int].brd, d[curindex as int].scope as int),
                );
            }
            w != 0
        };
        for i in 0..n
            invariant
                wf(d),
                db@ == d,
                curindex < d.len(),
                n == d[curindex as int].children@.len(),
                n > 0,
                d[curindex as int].player != 1 ==> haswon == (slice_winner_of(d[curindex as int]) != 0),
                (rate, index as int) == pick_best(d, curindex as int, i as int),
                i > 0 ==> index < i,
        {
            assert(node_ok(d, curindex as int));
            assert(child_ok(d, curindex as int, i as int));
            let c = db[curindex].children[i];
            let pr = db[c].prediction;
            let allowed = if db[curindex].player == 1 {
                true
            } else {
                !(haswon && loopstuck(db, curindex, i))
            };
            let better = if db[curindex].player == 1 {
                opt_gt(pr, rate)
            } else {
                opt_gt(rate, pr)
            };
            if allowed && (rate.is_none() || better) {
                rate = pr;
                index = i;
            }
        }
        db[curindex].prediction = rate;
        proof {
            if rate is Some {
                lemma_pick_best_some(d, curindex as int, n as int);
            }
            assert(db@ =~= updated(d, curindex as int));
            assert forall|i: int| 0 <= i < d.len() implies #[trigger] same_shape(d[i], db@[i]) by {}
            lemma_same_shapes_wf(d, db@);
        }
        index
    } else {
        proof {
            assert forall|i: int| 0 <= i < d.len() implies #[trigger] same_shape(d[i], db@[i]) by {}
        }
        0
    }
}

/// The tree after the search below node `cur`: nothing happens at a node of
/// move `md` (when given); otherwise each child in turn is searched, then
/// the node takes the prediction of its best child (see `updated`). Only
/// nodes before `len` are searched.
pub open spec fn calc_spec(db: Seq<Board>, cur: int, md: Option<u8>, len: int) -> Seq<Board>
    decreases len - cur, 1int, 0int,
{
    if !(0 <= cur < len && cur < db.len()) {
        db
    } else if md is Some && db[cur].movenum == md.unwrap() {
        db
    } else {
        updated(calc_children(db, cur, md, len, db[cur].children@.len() as int), cur)
    }
}

/// The tree after the search below the first `n` children of node `cur`,
/// one after the other.
pub open spec fn calc_children(db: Seq<Board>, cur: int, md: Option<u8>, len: int, n: int) -> Seq<
    Board,
>
    decreases len - cur, 0int, n,
{
    if n <= 0 || !(0 <= cur < len && cur < db.len()) {
        db
    } else {
        let d = calc_children(db, cur, md, len, n - 1);
        let c = d[cur].children@[n - 1] as int;
        if cur < c < len {
            calc_spec(d, c, md, len)
        } else {
            d
        }
    }
}

/// A node has at most 81 moves.
pub proof fn lemma_moves_len(b: Big, scope: int)
    ensures
        moves(b, scope).len() <= 81,
{
    lemma_local_moves_len(b, scope, 9);
    lemma_global_moves_len(b, 81);
}

proof fn lemma_local_moves_len(b: Big, scope: int, n: int)
    requires
        0 <= n,
    ensures
        local_moves(b, scope, n).len() <= n,
    decreases n,
{
    if n > 0 {
        lemma_local_moves_len(b, scope, n - 1);
    }
}

proof fn lemma_global_moves_len(b: Big, n: int)
    requires
        0 <= n,
    ensures
        global_moves(b, n).len() <= n,
    decreases n,
{
    if n > 0 {
        lemma_global_moves_len(b, n - 1);
    }
}

/// Node `k` is node `a` or lies below it: following the parents from `k`
/// leads to `a`.
pub open spec fn descends(db: Seq<Board>, k: int, a: int) -> bool
    decreases k,
{
    if k == a {
        true
    } else if 0 <= a < k < db.len() && db[k].parent is Some && db[k].parent.unwrap() < k {
        descends(db, db[k].parent.unwrap() as int, a)
    } else {
        false
    }
}

/// Every node of `d0` that does not lie below node `a` is the same in `d`.
pub open spec fn unchanged_outside(d0: Seq<Board>, d: Seq<Board>, a: int) -> bool {
    forall|k: int| 0 <= k < d0.len() && !descends(d0, k, a) ==> #[trigger] d[k] == d0[k]
}

/// Node `c` of the tree `d0`, unless it is at move `md` or has no children,
/// holds in the tree `d` the prediction of its best child there.
pub open spec fn holds_best(d0: Seq<Board>, d: Seq<Board>, c: int, md: Option<u8>) -> bool {
    !(md is Some && d0[c].movenum == md.unwrap()) && d0[c].children@.len() > 0 ==> d[c].prediction
        == pick_best(d, c, d0[c].children@.len() as int).0
}

/// Two trees of the shape of a third have the same shape.
proof fn lemma_same_shapes_both(d0: Seq<Board>, d1: Seq<Board>, d2: Seq<Board>)
    requires
        same_shapes(d0, d1),
        same_shapes(d0, d2),
    ensures
        same_shapes(d1, d2),
{
    assert forall|i: int| 0 <= i < d1.len() implies #[trigger] same_shape(d1[i], d2[i]) by {
        assert(same_shape(d0[i], d1[i]));
        assert(same_shape(d0[i], d2[i]));
    }
}

/// Lying below a node depends on the parents alone.
proof fn lemma_descends_shapes(d1: Seq<Board>, d2: Seq<Board>, k: int, a: int)
    requires
        same_shapes(d1, d2),
    ensures
        descends(d1, k, a) == descends(d2, k, a),
    decreases k,
{
    if k != a && 0 <= a < k < d1.len() {
        assert(same_shape(d1[k], d2[k]));
        if d1[k].parent is Some && d1[k].parent.unwrap() < k {
            lemma_descends_shapes(d1, d2, d1[k].parent.unwrap() as int, a);
        }
    }
}

/// What lies below a child of node `cur` lies below node `cur`.
proof fn lemma_descends_child(db: Seq<Board>, k: int, c: int, cur: int)
    requires
        0 <= cur < c < db.len(),
        db[c].parent is Some,
        db[c].parent.unwrap() == cur,
        descends(db, k, c),
    ensures
        descends(db, k, cur),
    decreases k,
{
    if k == c {
        assert(descends(db, cur, cur));
    } else {
        lemma_descends_child(db, db[k].parent.unwrap() as int, c, cur);
    }
}

/// Two nodes above one node lie one below the other.
proof fn lemma_descends_common(db: Seq<Board>, k: int, a: int, b: int)
    requires
        descends(db, k, a),
        descends(db, k, b),
        a <= b,
    ensures
        descends(db, b, a),
    decreases k,
{
    if k != b {
        lemma_descends_common(db, db[k].parent.unwrap() as int, a, b);
    }
}

/// Nothing lies below two different children of one node.
proof fn lemma_siblings_apart(db: Seq<Board>, k: int, c1: int, c2: int, cur: int)
    requires
        0 <= cur < c1 < db.len(),
        cur < c2 < db.len(),
        c1 != c2,
        db[c1].parent is Some,
        db[c1].parent.unwrap() == cur,
        db[c2].parent is Some,
        db[c2].parent.unwrap() == cur,
        descends(db, k, c1),
    ensures
        !descends(db, k, c2),
{
    if descends(db, k, c2) {
        if c1 < c2 {
            lemma_descends_common(db, k, c1, c2);
            assert(!descends(db, cur, c1));
        } else {
            lemma_descends_common(db, k, c2, c1);
            assert(!descends(db, cur, c2));
        }
    }
}

/// Which child of node `x` is best depends on the shape of the tree and the
/// predictions of the children of `x` alone.
proof fn lemma_pick_best_frame(d1: Seq<Board>, d2: Seq<Board>, x: int, m: int)
    requires
        wf(d1),
        same_shapes(d1, d2),
        0 <= x < d1.len(),
        0 <= m <= d1[x].children@.len(),
        forall|i: int| 0 <= i < m ==> #[trigger] child_prediction(d1, x, i) == child_prediction(d2, x, i),
    ensures
        pick_best(d1, x, m) == pick_best(d2, x, m),
    decreases m,
{
    if m > 0 {
        lemma_pick_best_frame(d1, d2, x, m - 1);
        assert(node_ok(d1, x));
        assert(child_ok(d1, x, m - 1));
        assert(same_shape(d1[x], d2[x]));
        let c = d1[x].children@[m - 1] as int;
        assert(same_shape(d1[c], d2[c]));
        assert(child_prediction(d1, x, m - 1) == child_prediction(d2, x, m - 1));
        assert(loopstuck_spec(d1, x, m - 1) == loopstuck_spec(d2, x, m - 1)) by {
            assert(node_ok(d1, c));
            if loopstuck_spec(d1, x, m - 1) {
                let g = choose|g: int|
                    0 <= g < d1[c].children@.len() && #[trigger] d1[d1[c].children@[g] as int].scope
                        == d1[x].scope;
                assert(child_ok(d1, c, g));
                assert(same_shape(d1[d1[c].children@[g] as int], d2[d1[c].children@[g] as int]));
            }
            if loopstuck_spec(d2, x, m - 1) {
                let g = choose|g: int|
                    0 <= g < d2[c].children@.len() && #[trigger] d2[d2[c].children@[g] as int].scope
                        == d2[x].scope;
                assert(child_ok(d1, c, g));
                assert(same_shape(d1[d1[c].children@[g] as int], d2[d1[c].children@[g] as int]));
            }
        }
    }
}

/// When every node that changed lies below node `a`, a node `c` that does
/// not, and whose children do not, keeps holding the prediction of its best
/// child.
proof fn lemma_holds_best_kept(d0: Seq<Board>, before: Seq<Board>, after: Seq<Board>, c: int, a: int, md: Option<u8>)
    requires
        wf(d0),
        same_shapes(d0, before),
        same_shapes(d0, after),
        0 <= c < d0.len(),
        unchanged_outside(before, after, a),
        !descends(d0, c, a),
        forall|i: int| 0 <= i < d0[c].children@.len() ==> !descends(d0, #[trigger] d0[c].children@[i] as int, a),
        holds_best(d0, before, c, md),
    ensures
        holds_best(d0, after, c, md),
{
    lemma_same_shapes_wf(d0, before);
    assert(same_shape(d0[c], before[c]));
    assert(same_shape(d0[c], after[c]));
    let m = d0[c].children@.len() as int;
    lemma_descends_shapes(d0, before, c, a);
    assert(after[c] == before[c]);
    assert forall|i: int| 0 <= i < m implies #[trigger] child_prediction(before, c, i) == child_prediction(after, c, i) by {
        let g = d0[c].children@[i] as int;
        assert(node_ok(d0, c));
        assert(child_ok(d0, c, i));
        lemma_descends_shapes(d0, before, g, a);
        assert(!descends(d0, g, a));
        assert(after[g] == before[g]);
    }
    lemma_same_shapes_both(d0, before, after);
    lemma_pick_best_frame(before, after, c, m);
}

/// After the search below child `j` of node `cur`, which changes only what
/// lies below that child and leaves it holding the prediction of its best
/// child, every node that changed since `d0` still lies below node `cur`,
/// and the children `0..=j` hold the predictions of their best children.
proof fn lemma_search_step(
    d0: Seq<Board>,
    before: Seq<Board>,
    after: Seq<Board>,
    cur: int,
    j: int,
    md: Option<u8>,
)
    requires
        wf(d0),
        0 <= cur < d0.len(),
        0 <= j < d0[cur].children@.len(),
        same_shapes(d0, before),
        same_shapes(d0, after),
        unchanged_outside(d0, before, cur),
        forall|i: int| 0 <= i < j ==> #[trigger] holds_best(d0, before, d0[cur].children@[i] as int, md),
        unchanged_outside(before, after, d0[cur].children@[j] as int),
        holds_best(before, after, d0[cur].children@[j] as int, md),
    ensures
        unchanged_outside(d0, after, cur),
        forall|i: int| 0 <= i <= j ==> #[trigger] holds_best(d0, after, d0[cur].children@[i] as int, md),
{
    let ck = d0[cur].children@[j] as int;
    assert(node_ok(d0, cur));
    assert(child_ok(d0, cur, j));
    assert forall|k: int| 0 <= k < d0.len() && !descends(d0, k, cur) implies #[trigger] after[k] == d0[k] by {
        if descends(d0, k, ck) {
            lemma_descends_child(d0, k, ck, cur);
        }
        lemma_descends_shapes(d0, before, k, ck);
    }
    assert forall|i: int| 0 <= i <= j implies #[trigger] holds_best(d0, after, d0[cur].children@[i] as int, md) by {
        let c = d0[cur].children@[i] as int;
        assert(child_ok(d0, cur, i));
        if c == ck {
            assert(same_shape(d0[c], before[c]));
        } else {
            assert(descends(d0, c, c));
            lemma_siblings_apart(d0, c, c, ck, cur);
            assert forall|i2: int| 0 <= i2 < d0[c].children@.len() implies !descends(
                d0,
                #[trigger] d0[c].children@[i2] as int,
                ck,
            ) by {
                assert(node_ok(d0, c));
                assert(child_ok(d0, c, i2));
            }
            lemma_holds_best_kept(d0, before, after, c, ck, md);
        }
    }
}

/// Node `cur` taking the prediction of its best child leaves every other
/// node as it was, and its children holding the predictions of their best
/// children.
proof fn lemma_update_keeps(d0: Seq<Board>, before: Seq<Board>, after: Seq<Board>, cur: int, md: Option<u8>)
    requires
        wf(d0),
        0 <= cur < d0.len(),
        same_shapes(d0, before),
        same_shapes(before, after),
        forall|k: int| 0 <= k < before.len() && k != cur ==> #[trigger] after[k] == before[k],
        unchanged_outside(d0, before, cur),
        forall|i: int|
            0 <= i < d0[cur].children@.len() ==> #[trigger] holds_best(d0, before, d0[cur].children@[i] as int, md),
    ensures
        unchanged_outside(d0, after, cur),
        forall|i: int|
            0 <= i < d0[cur].children@.len() ==> #[trigger] holds_best(d0, after, d0[cur].children@[i] as int, md),
{
    lemma_same_shapes_wf(d0, before);
    assert(node_ok(d0, cur));
    assert forall|k: int| 0 <= k < d0.len() && !descends(d0, k, cur) implies #[trigger] after[k] == d0[k] by {}
    assert forall|i: int|
        0 <= i < d0[cur].children@.len() implies #[trigger] holds_best(d0, after, d0[cur].children@[i] as int, md) by {
        let c = d0[cur].children@[i] as int;
        assert(child_ok(d0, cur, i));
        assert(same_shape(d0[c], before[c]));
        let m = d0[c].children@.len() as int;
        assert forall|i2: int| 0 <= i2 < m implies #[trigger] child_prediction(before, c, i2) == child_prediction(after, c, i2) by {
            assert(node_ok(d0, c));
            assert(child_ok(d0, c, i2));
            let g = d0[c].children@[i2] as int;
            assert(after[g] == before[g]);
        }
        lemma_pick_best_frame(before, after, c, m);
        assert(after[c] == before[c]);
        assert(holds_best(d0, before, c, md));
    }
}

/// Searches the tree below node `curindex` down to move `maxdepth` (to the
/// leaves without one), updating predictions bottom up (see `calc_spec`).
pub fn calcmove(db: &mut Vec<Board>, curindex: usize, maxdepth: Option<u8>)
    requires
        wf(old(db)@),
        curindex < old(db)@.len(),
    ensures
        final(db)@ == calc_spec(old(db)@, curindex as int, maxdepth, old(db)@.len() as int),
        wf(final(db)@),
        same_shapes(old(db)@, final(db)@),
        !(maxdepth is Some && old(db)@[curindex as int].movenum == maxdepth.unwrap())
            && old(db)@[curindex as int].children@.len() > 0 ==> final(db)@[curindex as int].prediction
            == pick_best(final(db)@, curindex as int, old(db)@[curindex as int].children@.len() as int).0,
        unchanged_outside(old(db)@, final(db)@, curindex as int),
        !(maxdepth is Some && old(db)@[curindex as int].movenum == maxdepth.unwrap()) ==> forall|j: int|
            0 <= j < old(db)@[curindex as int].children@.len() ==> #[trigger] holds_best(
                old(db)@,
                final(db)@,
                old(db)@[curindex as int].children@[j] as int,
                maxdepth,
            ),
    decreases usize::MAX - curindex,
{
    let ghost d0 = db@;
    let ghost len = d0.len() as int;
    if maxdepth.is_some() && db[curindex].movenum == maxdepth.unwrap() {
        proof {
            assert forall|i: int| 0 <= i < d0.len() implies #[trigger] same_shape(d0[i], db@[i]) by {}
        }
        return;
    } else {
        let n = db[curindex].children.len();
        proof {
            assert forall|i: int| 0 <= i < d0.len() implies #[trigger] same_shape(d0[i], db@[i]) by {}
        }
        for child in 0..n
            invariant
                wf(d0),
                wf(db@),
                curindex < d0.len(),
                len == d0.len(),
                n == d0[curindex as int].children@.len(),
                same_shapes(d0, db@),
                db@ == calc_children(d0, curindex as int, maxdepth, len, child as int),
                unchanged_outside(d0, db@, curindex as int),
                forall|i: int|
                    0 <= i < child ==> #[trigger] holds_best(d0, db@, d0[curindex as int].children@[i] as int, maxdepth),
        {
            assert(same_shape(d0[curindex as int], db@[curindex as int]));
            assert(node_ok(db@, curindex as int));
            assert(child_ok(db@, curindex as int, child as int));
            let ghost before = db@;
            let newindex = db[curindex].children[child];
            assert(curindex < newindex < db@.len());
            assert(db@.len() == d0.len());
            calcmove(db, newindex, maxdepth);
            proof {
                assert forall|i: int| 0 <= i < d0.len() implies #[trigger] same_shape(d0[i], db@[i]) by {
                    assert(same_shape(d0[i], before[i]));
                    assert(same_shape(before[i], db@[i]));
                }
                lemma_search_step(d0, before, db@, curindex as int, child as int, maxdepth);
            }
        }
        proof {
            assert(same_shape(d0[curindex as int], db@[curindex as int]));
            assert(node_ok(d0, curindex as int));
            lemma_moves_len(d0[curindex as int].brd, d0[curindex as int].scope as int);
        }
        let ghost before = db@;
        let len_now = db[curindex].children.len();
        assert(!len_now > 0) by (bit_vector)
            requires
                len_now <= 81,
        ;
        if !db[curindex].children.len() > 0 {
            updatepred(db, curindex);
        }
        proof {
            if len_now > 0 {
                lemma_pick_best_update(before, curindex as int, db@[curindex as int].prediction, len_now as int);
                lemma_update_keeps(d0, before, db@, curindex as int, maxdepth);
            }
            assert forall|i: int| 0 <= i < d0.len() implies #[trigger] same_shape(d0[i], db@[i]) by {
                assert(same_shape(d0[i], before[i]));
                assert(same_shape(before[i], db@[i]));
            }
        }
    }
}

/// Every child of node `cur` has a prediction.
pub open spec fn all_rated(db: Seq<Board>, cur: int) -> bool {
    forall|j: int|
        0 <= j < db[cur].children@.len() ==> (#[trigger] child_prediction(db, cur, j)) is Some
}

/// The least of the first `n` predictions of the children of node `cur` that
/// the computer may choose (see `not_stuck`), as (rating, child number): a
/// child replaces the best so far when nothing is chosen yet or its
/// prediction is smaller.
pub open spec fn pick_least(db: Seq<Board>, cur: int, n: int) -> (Option<i32>, int)
    decreases n,
{
    if n <= 0 {
        (None, 0)
    } else {
        let prev = pick_least(db, cur, n - 1);
        let pr = child_prediction(db, cur, n - 1);
        if not_stuck(db, cur, n - 1) && (prev.0 is None || opt_greater(prev.0, pr)) {
            (pr, n - 1)
        } else {
            prev
        }
    }
}

/// What the computer's choice at node `cur` of the searched tree `db` is:
/// the child with the least prediction that it may choose, with that
/// prediction; none when a child has no prediction or no child may be chosen.
pub open spec fn choice_spec(db: Seq<Board>, cur: int) -> Option<(u8, i32)> {
    let pick = pick_least(db, cur, db[cur].children@.len() as int);
    if all_rated(db, cur) && pick.0 is Some {
        Some((pick.1 as u8, pick.0.unwrap()))
    } else {
        None
    }
}

/// The computer's move at node `curindex`: searches below each child down
/// to move `maxdepth` (see `calcmove`), then picks the child with the least
/// prediction that it may choose (see `choice_spec`). Returns the child's
/// number and its prediction; `None` when a child has no prediction or no
/// child may be chosen.
pub fn getcpmove(db: &mut Vec<Board>, curindex: usize, maxdepth: Option<u8>) -> (choice: Option<(u8, i32)>)
    requires
        wf(old(db)@),
        curindex < old(db)@.len(),
    ensures
        final(db)@ == calc_children(
            old(db)@,
            curindex as int,
            maxdepth,
            old(db)@.len() as int,
            old(db)@[curindex as int].children@.len() as int,
        ),
        wf(final(db)@),
        same_shapes(old(db)@, final(db)@),
        choice == choice_spec(final(db)@, curindex as int),
        choice matches Some(c) ==> (c.0 as int) < old(db)@[curindex as int].children@.len(),
        unchanged_outside(old(db)@, final(db)@, curindex as int),
        forall|j: int|
            0 <= j < old(db)@[curindex as int].children@.len() ==> #[trigger] holds_best(
                old(db)@,
                final(db)@,
                old(db)@[curindex as int].children@[j] as int,
                maxdepth,
            ),
        choice matches Some(c) ==> ({
            let d = final(db)@;
            let ch = d[curindex as int].children@[c.0 as int] as int;
            slice_winner_of(d[curindex as int]) != 0 ==> forall|g: int|
                0 <= g < d[ch].children@.len() ==> #[trigger] d[d[ch].children@[g] as int].scope
                    != d[curindex as int].scope
        }),
{
    let ghost d0 = db@;
    let ghost len = d0.len() as int;
    let n = db[curindex].children.len();
    proof {
        assert forall|i: int| 0 <= i < d0.len() implies #[trigger] same_shape(d0[i], db@[i]) by {}
    }
    for child in 0..n
        invariant
            wf(d0),
            wf(db@),
            curindex < d0.len(),
            len == d0.len(),
            n == d0[curindex as int].children@.len(),
            same_shapes(d0, db@),
            db@ == calc_children(d0, curindex as int, maxdepth, len, child as int),
            unchanged_outside(d0, db@, curindex as int),
            forall|i: int|
                0 <= i < child ==> #[trigger] holds_best(d0, db@, d0[curindex as int].children@[i] as int, maxdepth),
    {
        assert(same_shape(d0[curindex as int], db@[curindex as int]));
        assert(node_ok(db@, curindex as int));
        assert(child_ok(db@, curindex as int, child as int));
        let ghost before = db@;
        let newindex = db[curindex].children[child];
        calcmove(db, newindex, maxdepth);
        proof {
            assert forall|i: int| 0 <= i < d0.len() implies #[trigger] same_shape(d0[i], db@[i]) by {
                assert(same_shape(d0[i], before[i]));
                assert(same_shape(before[i], db@[i]));
            }
            lemma_search_step(d0, before, db@, curindex as int, child as int, maxdepth);
        }
    }
    let ghost d = db@;
    proof {
        assert(same_shape(d0[curindex as int], d[curindex as int]));
        assert(node_ok(d0, curindex as int));
        lemma_moves_len(d0[curindex as int].brd, d0[curindex as int].scope as int);
    }
    let sl = get_slice(db[curindex].brd, db[curindex].scope);
    let w = crate::small::small_winner(sl);
    proof {
        crate::small::lemma_winner_same_cells(
            crate::small::small_cells(sl),
            slice_cells(d[curindex as int].brd, d[curindex as int].scope as int),
        );
    }
    let haswon = w != 0;
    let mut minindex: u8 = 0;
    let mut minrating: Option<i32> = None;
    for childnum in 0..n
        invariant
            wf(d),
            db@ == d,
            curindex < d.len(),
            n == d[curindex as int].children@.len(),
            n <= 81,
            haswon == (slice_winner_of(d[curindex as int]) != 0),
            forall|j: int| 0 <= j < childnum ==> (#[trigger] child_prediction(d, curindex as int, j)) is Some,
            (minrating, minindex as int) == pick_least(d, curindex as int, childnum as int),
            minindex <= childnum,
            minrating is Some ==> minindex < childnum,
            old(db)@ == d0,
            same_shapes(d0, d),
            d == calc_children(d0, curindex as int, maxdepth, len, n as int),
            len == d0.len(),
            n == d0[curindex as int].children@.len(),
            unchanged_outside(d0, d, curindex as int),
            forall|i: int|
                0 <= i < n ==> #[trigger] holds_best(d0, d, d0[curindex as int].children@[i] as int, maxdepth),
    {
        assert(node_ok(d, curindex as int));
        assert(child_ok(d, curindex as int, childnum as int));
        let c = db[curindex].children[childnum];
        let childrating = match db[c].prediction {
            Some(r) => r,
            None => {
                assert(child_prediction(d, curindex as int, childnum as int) is None);
                assert(!all_rated(d, curindex as int));
                return None;
            },
        };
        let isloop = !(haswon && loopstuck(db, curindex, childnum));
        if isloop && (minrating.is_none() || childrating < minrating.unwrap()) {
            minrating = Some(childrating);
            minindex = childnum as u8;
        }
    }
    proof {
        if minrating is Some {
            lemma_pick_least(d, curindex as int, n as int);
        }
    }
    match minrating {
        Some(r) => Some((minindex, r)),
        None => None,
    }
}

/// The computer's turn at node `curindex` (where O is to move): the node
/// that its move (see `getcpmove`) leads to, with that node's prediction;
/// `None` when `getcpmove` finds no move.
pub fn computer_turn(db: &mut Vec<Board>, curindex: usize, maxdepth: Option<u8>) -> (next: Option<(usize, i32)>)
    requires
        wf(old(db)@),
        curindex < old(db)@.len(),
        old(db)@[curindex as int].player != 1,
    ensures
        final(db)@ == calc_children(
            old(db)@,
            curindex as int,
            maxdepth,
            old(db)@.len() as int,
            old(db)@[curindex as int].children@.len() as int,
        ),
        wf(final(db)@),
        same_shapes(old(db)@, final(db)@),
        next is None <==> choice_spec(final(db)@, curindex as int) is None,
        next matches Some(n) ==> {
            let k = choice_spec(final(db)@, curindex as int).unwrap().0 as int;
            let mv = moves(old(db)@[curindex as int].brd, old(db)@[curindex as int].scope as int)[k];
            &&& 0 <= k < old(db)@[curindex as int].children@.len()
            &&& n.0 == old(db)@[curindex as int].children@[k]
            &&& n.1 == choice_spec(final(db)@, curindex as int).unwrap().1
            &&& n.0 < old(db)@.len()
            &&& is_child_of(old(db)@[curindex as int], old(db)@[n.0 as int], curindex as int, mv.0, mv.1)
        },
        next matches Some(n) ==> ({
            let d = final(db)@;
            slice_winner_of(d[curindex as int]) != 0 ==> forall|g: int|
                0 <= g < d[n.0 as int].children@.len() ==> #[trigger] d[d[n.0 as int].children@[g] as int].scope
                    != d[curindex as int].scope
        }),
        unchanged_outside(old(db)@, final(db)@, curindex as int),
        forall|j: int|
            0 <= j < old(db)@[curindex as int].children@.len() ==> #[trigger] holds_best(
                old(db)@,
                final(db)@,
                old(db)@[curindex as int].children@[j] as int,
                maxdepth,
            ),
{
    let ghost d0 = db@;
    assert(node_ok(d0, curindex as int));
    match getcpmove(db, curindex, maxdepth) {
        Some((k, r)) => {
            assert(same_shape(d0[curindex as int], db@[curindex as int]));
            assert(child_ok(d0, curindex as int, k as int));
            let c = domove(&db[curindex], k);
            Some((c, r))
        },
        None => None,
    }
}

/// What showing the comparison from node `cur` at move `depth` does: the
/// node itself when it is at that move; from a node at move 0, each child in
/// turn; from any other node, the node takes the prediction of its best
/// child (see `updatepred`) and the comparison goes on from that child.
/// Gives the tree afterwards and the nodes to show, in order.
pub open spec fn comparison_spec(db: Seq<Board>, cur: int, depth: u8, len: int) -> (Seq<Board>, Seq<usize>)
    decreases len - cur, 1int, 0int,
{
    if !(0 <= cur < len && cur < db.len()) {
        (db, seq![])
    } else if db[cur].movenum == depth {
        (db, seq![cur as usize])
    } else if db[cur].movenum == 0 {
        comparison_children(db, cur, depth, len, db[cur].children@.len() as int)
    } else if db[cur].children@.len() > 0 {
        let d1 = updated(db, cur);
        let k = pick_best(db, cur, db[cur].children@.len() as int).1;
        let c = d1[cur].children@[k] as int;
        if cur < c < len {
            comparison_spec(d1, c, depth, len)
        } else {
            (d1, seq![])
        }
    } else {
        (db, seq![])
    }
}

/// The comparison from the first `n` children of node `cur`, one after the
/// other.
pub open spec fn comparison_children(db: Seq<Board>, cur: int, depth: u8, len: int, n: int) -> (Seq<Board>, Seq<usize>)
    decreases len - cur, 0int, n,
{
    if n <= 0 || !(0 <= cur < len && cur < db.len()) {
        (db, seq![])
    } else {
        let prev = comparison_children(db, cur, depth, len, n - 1);
        let c = prev.0[cur].children@[n - 1] as int;
        if cur < c < len {
            let next = comparison_spec(prev.0, c, depth, len);
            (next.0, prev.1 + next.1)
        } else {
            prev
        }
    }
}

/// Collects in `shown` the nodes that the comparison from node `curindex` at
/// move `depth` shows, updating predictions on the way (see
/// `comparison_spec`).
pub fn show_comparison(db: &mut Vec<Board>, curindex: usize, depth: u8, shown: &mut Vec<usize>)
    requires
        wf(old(db)@),
        curindex < old(db)@.len(),
    ensures
        wf(final(db)@),
        same_shapes(old(db)@, final(db)@),
        final(db)@ == comparison_spec(old(db)@, curindex as int, depth, old(db)@.len() as int).0,
        final(shown)@ == old(shown)@ + comparison_spec(old(db)@, curindex as int, depth, old(db)@.len() as int).1,
        forall|i: int|
            old(shown)@.len() <= i < final(shown)@.len() ==> #[trigger] final(shown)@[i] < old(db)@.len()
                && old(db)@[final(shown)@[i] as int].movenum == depth,
    decreases usize::MAX - curindex,
{
    let ghost d0 = db@;
    let ghost len = d0.len() as int;
    let ghost s0 = shown@;
    assert(node_ok(d0, curindex as int));
    proof {
        assert forall|i: int| 0 <= i < d0.len() implies #[trigger] same_shape(d0[i], db@[i]) by {}
    }
    if db[curindex].movenum == depth {
        shown.push(curindex);
    } else if db[curindex].movenum == 0 {
        let n = db[curindex].children.len();
        for child in 0..n
            invariant
                wf(d0),
                wf(db@),
                curindex < d0.len(),
                len == d0.len(),
                n == d0[curindex as int].children@.len(),
                same_shapes(d0, db@),
                d0[curindex as int].movenum != depth,
                d0[curindex as int].movenum == 0,
                (db@, shown@.subrange(s0.len() as int, shown@.len() as int)) == comparison_children(d0, curindex as int, depth, len, child as int),
                s0.len() <= shown@.len(),
                shown@.subrange(0, s0.len() as int) == s0,
                forall|i: int|
                    s0.len() <= i < shown@.len() ==> #[trigger] shown@[i] < d0.len()
                        && d0[shown@[i] as int].movenum == depth,
        {
            assert(same_shape(d0[curindex as int], db@[curindex as int]));
            assert(node_ok(db@, curindex as int));
            assert(child_ok(db@, curindex as int, child as int));
            let ghost before = db@;
            let ghost sb = shown@;
            let c = db[curindex].children[child];
            show_comparison(db, c, depth, shown);
            proof {
                assert forall|i: int| 0 <= i < d0.len() implies #[trigger] same_shape(d0[i], db@[i]) by {
                    assert(same_shape(d0[i], before[i]));
                    assert(same_shape(before[i], db@[i]));
                }
                assert forall|i: int| s0.len() <= i < shown@.len() implies #[trigger] shown@[i] < d0.len()
                    && d0[shown@[i] as int].movenum == depth by {
                    if i < sb.len() {
                        assert(shown@[i] == sb[i]);
                    } else {
                        assert(same_shape(d0[shown@[i] as int], before[shown@[i] as int]));
                    }
                }
                assert(shown@.subrange(s0.len() as int, shown@.len() as int) =~= sb.subrange(s0.len() as int, sb.len() as int) + comparison_spec(before, c as int, depth, len).1);
                assert(shown@.subrange(0, s0.len() as int) =~= sb.subrange(0, s0.len() as int));
            }
        }
        proof {
            assert(shown@ =~= shown@.subrange(0, s0.len() as int) + shown@.subrange(s0.len() as int, shown@.len() as int));
        }
    } else {
        let n = db[curindex].children.len();
        let predchild = updatepred(db, curindex);
        if n > 0 {
            let ghost d1 = db@;
            assert(same_shape(d0[curindex as int], d1[curindex as int]));
            assert(child_ok(d0, curindex as int, predchild as int));
            let c = db[curindex].children[predchild];
            show_comparison(db, c, depth, shown);
            proof {
                assert forall|i: int| 0 <= i < d0.len() implies #[trigger] same_shape(d0[i], db@[i]) by {
                    assert(same_shape(d0[i], d1[i]));
                    assert(same_shape(d1[i], db@[i]));
                }
                assert forall|i: int| s0.len() <= i < shown@.len() implies #[trigger] shown@[i] < d0.len()
                    && d0[shown@[i] as int].movenum == depth by {
                    assert(same_shape(d0[shown@[i] as int], d1[shown@[i] as int]));
                }
            }
        } else {
            assert(shown@ =~= s0 + seq![]);
        }
    }
}

/// Every child of an expanded node is the position after one of the node's
/// moves, made by the player to move; the child is one move further, the
/// other player is to move there, in the small board of the cell moved
/// into.
pub proof fn lemma_child_move(db: Seq<Board>, i: int, j: int)
    requires
        wf(db),
        0 <= i < db.len(),
        0 <= j < db[i].children@.len(),
    ensures
        db[i].children@.len() == moves(db[i].brd, db[i].scope as int).len(),
        i < db[i].children@[j] < db.len(),
        is_child_of(
            db[i],
            db[db[i].children@[j] as int],
            i,
            moves(db[i].brd, db[i].scope as int)[j].0,
            moves(db[i].brd, db[i].scope as int)[j].1,
        ),
{
    assert(node_ok(db, i));
    assert(child_ok(db, i, j));
}

/// The node in play is never obsolete: the builder keeps expanding it.
pub proof fn lemma_current_not_obsolete(db: Seq<Board>, cur: int)
    requires
        wf(db),
        0 <= cur < db.len(),
    ensures
        !obsolete_spec(db, db[cur], cur),
{
}

/// With every child rated, the computer's pick among the first `m` children
/// is the first of those it may choose with the least prediction; it picks
/// nothing only when it may choose none of them.
pub proof fn lemma_pick_least(db: Seq<Board>, cur: int, m: int)
    requires
        0 <= m <= db[cur].children@.len(),
        forall|j: int| 0 <= j < m ==> (#[trigger] child_prediction(db, cur, j)) is Some,
    ensures
        pick_least(db, cur, m).0 is None <==> (forall|j: int| 0 <= j < m ==> !#[trigger] not_stuck(db, cur, j)),
        pick_least(db, cur, m).0 is Some ==> {
            let (r, k) = pick_least(db, cur, m);
            &&& 0 <= k < m
            &&& not_stuck(db, cur, k)
            &&& child_prediction(db, cur, k) == r
            &&& forall|j: int|
                0 <= j < m && #[trigger] not_stuck(db, cur, j) ==> r.unwrap() <= child_prediction(db, cur, j).unwrap()
            &&& forall|j: int|
                0 <= j < k && #[trigger] not_stuck(db, cur, j) ==> r.unwrap() < child_prediction(db, cur, j).unwrap()
        },
    decreases m,
{
    if m > 0 {
        lemma_pick_least(db, cur, m - 1);
        assert(child_prediction(db, cur, m - 1) is Some);
    }
}

/// With every child rated, the best child among the first `m` is the first
/// choosable one with the greatest prediction when X is to move, with the
/// least when O is to move; there is none only when no child among them is
/// choosable.
pub proof fn lemma_pick_best(db: Seq<Board>, cur: int, m: int)
    requires
        0 <= m <= db[cur].children@.len(),
        forall|j: int| 0 <= j < m ==> (#[trigger] child_prediction(db, cur, j)) is Some,
    ensures
        pick_best(db, cur, m).0 is None <==> (forall|j: int| 0 <= j < m ==> !#[trigger] choosable(db, cur, j)),
        pick_best(db, cur, m).0 is Some ==> {
            let (r, k) = pick_best(db, cur, m);
            &&& 0 <= k < m
            &&& choosable(db, cur, k)
            &&& child_prediction(db, cur, k) == r
        },
        pick_best(db, cur, m).0 is Some && db[cur].player == 1 ==> {
            let (r, k) = pick_best(db, cur, m);
            &&& forall|j: int|
                0 <= j < m && #[trigger] choosable(db, cur, j) ==> child_prediction(db, cur, j).unwrap() <= r.unwrap()
            &&& forall|j: int|
                0 <= j < k && #[trigger] choosable(db, cur, j) ==> child_prediction(db, cur, j).unwrap() < r.unwrap()
        },
        pick_best(db, cur, m).0 is Some && db[cur].player != 1 ==> {
            let (r, k) = pick_best(db, cur, m);
            &&& forall|j: int|
                0 <= j < m && #[trigger] choosable(db, cur, j) ==> r.unwrap() <= child_prediction(db, cur, j).unwrap()
            &&& forall|j: int|
                0 <= j < k && #[trigger] choosable(db, cur, j) ==> r.unwrap() < child_prediction(db, cur, j).unwrap()
        },
    decreases m,
{
    if m > 0 {
        lemma_pick_best(db, cur, m - 1);
        assert(child_prediction(db, cur, m - 1) is Some);
    }
}

/// A best child that has a prediction is one of the first `m` children and
/// may be chosen.
pub proof fn lemma_pick_best_some(db: Seq<Board>, cur: int, m: int)
    requires
        0 <= m,
        pick_best(db, cur, m).0 is Some,
    ensures
        0 <= pick_best(db, cur, m).1 < m,
        choosable(db, cur, pick_best(db, cur, m).1),
    decreases m,
{
    if m > 0 {
        let prev = pick_best(db, cur, m - 1);
        let pr = child_prediction(db, cur, m - 1);
        if !(choosable(db, cur, m - 1) && (prev.0 is None || prefers(db, cur, pr, prev.0))) {
            lemma_pick_best_some(db, cur, m - 1);
        }
    }
}

/// Changing the prediction of node `cur` itself does not change which of its
/// children is best.
proof fn lemma_pick_best_update(db: Seq<Board>, cur: int, x: Option<i32>, m: int)
    requires
        wf(db),
        0 <= cur < db.len(),
        0 <= m <= db[cur].children@.len(),
    ensures
        pick_best(db.update(cur, with_prediction(db[cur], x)), cur, m) == pick_best(db, cur, m),
    decreases m,
{
    let d2 = db.update(cur, with_prediction(db[cur], x));
    if m > 0 {
        lemma_pick_best_update(db, cur, x, m - 1);
        assert(node_ok(db, cur));
        assert(child_ok(db, cur, m - 1));
        let c = db[cur].children@[m - 1] as int;
        assert(d2[c] == db[c]);
        assert(child_prediction(d2, cur, m - 1) == child_prediction(db, cur, m - 1));
        assert(slice_winner_of(d2[cur]) == slice_winner_of(db[cur]));
        assert(loopstuck_spec(d2, cur, m - 1) == loopstuck_spec(db, cur, m - 1)) by {
            assert(node_ok(db, c));
            if loopstuck_spec(db, cur, m - 1) {
                let g = choose|g: int|
                    0 <= g < db[c].children@.len() && #[trigger] db[db[c].children@[g] as int].scope
                        == db[cur].scope;
                assert(child_ok(db, c, g));
                assert(d2[d2[c].children@[g] as int].scope == db[db[c].children@[g] as int].scope);
            }
            if loopstuck_spec(d2, cur, m - 1) {
                let g = choose|g: int|
                    0 <= g < d2[c].children@.len() && #[trigger] d2[d2[c].children@[g] as int].scope
                        == d2[cur].scope;
                assert(child_ok(db, c, g));
                assert(d2[d2[c].children@[g] as int].scope == db[db[c].children@[g] as int].scope);
            }
        }
    }
}

} // verus!
