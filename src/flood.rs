//! Flood-fill reveal: uncovering a cell, and cascading from cells that have
//! no mine around them to their four orthogonal neighbours.
use vstd::prelude::*;
use crate::grid::{
    cell, cols, counted, counts_bounded, in_bounds, mine_at, mine_count, put, rect, rows, Board, Game, Pos, Slot,
};

verus! {

/// A cell that is not a mine and not yet visible.
pub open spec fn is_hidden(s: Slot) -> bool {
    s is Empty && !s->Empty_0
}

/// `(x, y)` is on the board and hidden.
pub open spec fn hidden_empty(b: Board, x: int, y: int) -> bool {
    in_bounds(b, x, y) && is_hidden(cell(b, x, y))
}

/// `(x, y)` is a cell without a mine whose count is zero.
pub open spec fn zero_at(b: Board, x: int, y: int) -> bool {
    cell(b, x, y) is Empty && cell(b, x, y)->Empty_1 == 0
}

/// The two coordinates differ by one step along a row or a column.
pub open spec fn adjacent(ax: int, ay: int, bx: int, by: int) -> bool {
    (ax == bx && (ay == by + 1 || by == ay + 1)) || (ay == by && (ax == bx + 1 || bx == ax + 1))
}

/// A path along which a reveal at `(sx, sy)` cascades: it starts there, runs
/// over hidden cells in orthogonal steps, and passes on only through cells
/// whose count is zero.
pub open spec fn cascade_path(b: Board, sx: int, sy: int, path: Seq<(int, int)>) -> bool {
    &&& path.len() > 0
    &&& path[0] == (sx, sy)
    &&& forall|i: int| 0 <= i < path.len() ==> hidden_empty(b, (#[trigger] path[i]).0, path[i].1)
    &&& forall|i: int|
        0 <= i < path.len() - 1 ==> zero_at(b, (#[trigger] path[i]).0, path[i].1) && adjacent(
            path[i].0,
            path[i].1,
            path[i + 1].0,
            path[i + 1].1,
        )
}

/// Revealing `(sx, sy)` on `b` uncovers `(x, y)`.
pub open spec fn floods(b: Board, sx: int, sy: int, x: int, y: int) -> bool {
    exists|path: Seq<(int, int)>| #[trigger] cascade_path(b, sx, sy, path) && path.last() == (x, y)
}

/// The cell at `(x, y)` after revealing `(sx, sy)` on `b`.
pub open spec fn revealed_cell(b: Board, sx: int, sy: int, x: int, y: int) -> Slot {
    if floods(b, sx, sy, x, y) {
        Slot::Empty(true, cell(b, x, y)->Empty_1)
    } else {
        cell(b, x, y)
    }
}

/// The board after revealing `(sx, sy)` on `b`.
pub open spec fn reveal_board(b: Board, sx: int, sy: int) -> Board {
    Seq::new(b.len(), |y: int| Seq::new(b[y].len(), |x: int| revealed_cell(b, sx, sy, x, y)))
}

/// The number of hidden cells among the first `n` of a row.
pub open spec fn row_hidden(r: Seq<Slot>, n: int) -> nat
    decreases n,
{
    if n <= 0 {
        0
    } else {
        row_hidden(r, n - 1) + (if is_hidden(r[n - 1]) { 1nat } else { 0nat })
    }
}

/// The number of hidden cells in the first `n` rows.
pub open spec fn board_hidden(b: Board, n: int) -> nat
    decreases n,
{
    if n <= 0 {
        0
    } else {
        board_hidden(b, n - 1) + row_hidden(b[n - 1], b[n - 1].len() as int)
    }
}

proof fn lemma_row_hidden_update(r: Seq<Slot>, x: int, s: Slot, n: int)
    requires
        0 <= x < r.len(),
        n <= r.len(),
        is_hidden(r[x]),
        !is_hidden(s),
    ensures
        x < n ==> row_hidden(r.update(x, s), n) + 1 == row_hidden(r, n),
        x >= n ==> row_hidden(r.update(x, s), n) == row_hidden(r, n),
    decreases n,
{
    if n > 0 {
        lemma_row_hidden_update(r, x, s, n - 1);
    }
}

proof fn lemma_board_hidden_update(b: Board, y: int, r: Seq<Slot>, n: int)
    requires
        0 <= y < b.len(),
        n <= b.len(),
        row_hidden(r, r.len() as int) + 1 == row_hidden(b[y], b[y].len() as int),
    ensures
        y < n ==> board_hidden(b.update(y, r), n) + 1 == board_hidden(b, n),
        y >= n ==> board_hidden(b.update(y, r), n) == board_hidden(b, n),
    decreases n,
{
    if n > 0 {
        lemma_board_hidden_update(b, y, r, n - 1);
    }
}

/// Uncovering one hidden cell lowers the number of hidden cells by one.
proof fn lemma_hidden_drops(b: Board, x: int, y: int, s: Slot)
    requires
        rect(b),
        hidden_empty(b, x, y),
        !is_hidden(s),
    ensures
        board_hidden(put(b, x, y, s), b.len() as int) + 1 == board_hidden(b, b.len() as int),
{
    assert(b[y].len() == b[0].len());
    lemma_row_hidden_update(b[y], x, s, b[y].len() as int);
    lemma_board_hidden_update(b, y, b[y].update(x, s), b.len() as int);
}

/// A cascade that reaches a zero cell goes on to each hidden neighbour.
proof fn lemma_floods_step(b: Board, sx: int, sy: int, qx: int, qy: int, px: int, py: int)
    requires
        floods(b, sx, sy, qx, qy),
        zero_at(b, qx, qy),
        adjacent(qx, qy, px, py),
        hidden_empty(b, px, py),
    ensures
        floods(b, sx, sy, px, py),
{
    let path = choose|path: Seq<(int, int)>| #[trigger] cascade_path(b, sx, sy, path) && path.last() == (qx, qy);
    let longer = path.push((px, py));
    assert forall|i: int| 0 <= i < longer.len() implies hidden_empty(b, (#[trigger] longer[i]).0, longer[i].1) by {
        if i < path.len() {
            assert(longer[i] == path[i]);
        }
    }
    assert forall|i: int| 0 <= i < longer.len() - 1 implies zero_at(b, (#[trigger] longer[i]).0, longer[i].1) && adjacent(
        longer[i].0,
        longer[i].1,
        longer[i + 1].0,
        longer[i + 1].1,
    ) by {
        assert(longer[i] == path[i]);
        if i < path.len() - 1 {
            assert(longer[i + 1] == path[i + 1]);
        }
    }
    assert(cascade_path(b, sx, sy, longer));
    assert(longer.last() == (px, py));
}

/// The cell was hidden on `b0` and no longer is on `b`.
pub open spec fn uncovered(b0: Board, b: Board, x: int, y: int) -> bool {
    hidden_empty(b0, x, y) && !hidden_empty(b, x, y)
}

/// The uncovered cells hold the start and are closed under the cascade.
pub open spec fn cascade_closed(b0: Board, b: Board, sx: int, sy: int) -> bool {
    &&& hidden_empty(b0, sx, sy) ==> uncovered(b0, b, sx, sy)
    &&& forall|x: int, y: int|
        #[trigger] uncovered(b0, b, x, y) && zero_at(b0, x, y) ==> {
            &&& hidden_empty(b0, x - 1, y) ==> uncovered(b0, b, x - 1, y)
            &&& hidden_empty(b0, x + 1, y) ==> uncovered(b0, b, x + 1, y)
            &&& hidden_empty(b0, x, y - 1) ==> uncovered(b0, b, x, y - 1)
            &&& hidden_empty(b0, x, y + 1) ==> uncovered(b0, b, x, y + 1)
        }
}

proof fn lemma_closed_path(b0: Board, b: Board, sx: int, sy: int, path: Seq<(int, int)>, i: int)
    requires
        cascade_closed(b0, b, sx, sy),
        cascade_path(b0, sx, sy, path),
        0 <= i < path.len(),
    ensures
        uncovered(b0, b, path[i].0, path[i].1),
    decreases i,
{
    assert(hidden_empty(b0, path[i].0, path[i].1));
    if i > 0 {
        lemma_closed_path(b0, b, sx, sy, path, i - 1);
        assert(zero_at(b0, path[i - 1].0, path[i - 1].1));
        assert(adjacent(path[i - 1].0, path[i - 1].1, path[i].0, path[i].1));
        assert(uncovered(b0, b, path[i - 1].0, path[i - 1].1));
    }
}

/// Where the uncovered cells are closed under the cascade, they hold every
/// cell that the cascade reaches.
proof fn lemma_closed_floods(b0: Board, b: Board, sx: int, sy: int)
    requires
        cascade_closed(b0, b, sx, sy),
    ensures
        forall|x: int, y: int| floods(b0, sx, sy, x, y) ==> #[trigger] uncovered(b0, b, x, y),
{
    assert forall|x: int, y: int| floods(b0, sx, sy, x, y) implies #[trigger] uncovered(b0, b, x, y) by {
        let path = choose|path: Seq<(int, int)>| #[trigger] cascade_path(b0, sx, sy, path) && path.last() == (x, y);
        lemma_closed_path(b0, b, sx, sy, path, path.len() - 1);
    }
}

/// A zero cell that the cascade from `(sx, sy)` reaches.
pub open spec fn flooded_zero(b: Board, sx: int, sy: int, x: int, y: int) -> bool {
    floods(b, sx, sy, x, y) && zero_at(b, x, y)
}

/// A coordinate that may wait on the work list: the start, or a neighbour
/// of a zero cell that the cascade reaches.
pub open spec fn pending_ok(b: Board, sx: int, sy: int, x: int, y: int) -> bool {
    ||| (x == sx && y == sy)
    ||| flooded_zero(b, sx, sy, x - 1, y)
    ||| flooded_zero(b, sx, sy, x + 1, y)
    ||| flooded_zero(b, sx, sy, x, y - 1)
    ||| flooded_zero(b, sx, sy, x, y + 1)
}

/// `(x, y)` waits on the work list.
pub open spec fn pending(st: Seq<Pos>, x: int, y: int) -> bool {
    exists|i: int| 0 <= i < st.len() && (#[trigger] st[i]).0 == x && st[i].1 == y
}

/// What holds of the board `b` and the work list `st` at each step of a
/// reveal of `(sx, sy)` that started from `b0`.
#[verifier::opaque]
pub open spec fn work_inv(b0: Board, b: Board, st: Seq<Pos>, sx: int, sy: int) -> bool {
    &&& rect(b0)
    &&& rect(b)
    &&& rows(b) == rows(b0)
    &&& cols(b) == cols(b0)
    &&& forall|x: int, y: int|
        in_bounds(b0, x, y) ==> {
            ||| #[trigger] cell(b, x, y) == cell(b0, x, y)
            ||| (hidden_empty(b0, x, y) && floods(b0, sx, sy, x, y) && cell(b, x, y) == Slot::Empty(
                true,
                cell(b0, x, y)->Empty_1,
            ))
        }
    &&& forall|i: int| 0 <= i < st.len() ==> pending_ok(b0, sx, sy, (#[trigger] st[i]).0 as int, st[i].1 as int)
    &&& hidden_empty(b0, sx, sy) ==> uncovered(b0, b, sx, sy) || pending(st, sx, sy)
    &&& forall|x: int, y: int|
        #[trigger] uncovered(b0, b, x, y) && zero_at(b0, x, y) ==> {
            &&& hidden_empty(b0, x - 1, y) ==> uncovered(b0, b, x - 1, y) || pending(st, x - 1, y)
            &&& hidden_empty(b0, x + 1, y) ==> uncovered(b0, b, x + 1, y) || pending(st, x + 1, y)
            &&& hidden_empty(b0, x, y - 1) ==> uncovered(b0, b, x, y - 1) || pending(st, x, y - 1)
            &&& hidden_empty(b0, x, y + 1) ==> uncovered(b0, b, x, y + 1) || pending(st, x, y + 1)
        }
}

/// Popping a coordinate that is off the board or not hidden changes nothing.
proof fn lemma_pop_skip(b0: Board, b: Board, st: Seq<Pos>, sx: int, sy: int)
    requires
        work_inv(b0, b, st, sx, sy),
        st.len() > 0,
        !hidden_empty(b, st.last().0 as int, st.last().1 as int),
    ensures
        work_inv(b0, b, st.drop_last(), sx, sy),
{
    reveal(work_inv);
    let p = st.last();
    let st1 = st.drop_last();
    assert forall|x: int, y: int| pending(st, x, y) && !(x == p.0 && y == p.1) implies pending(st1, x, y) by {
        let i = choose|i: int| 0 <= i < st.len() && (#[trigger] st[i]).0 == x && st[i].1 == y;
        assert(st1[i] == st[i]);
    }
    assert forall|x: int, y: int| x == p.0 && y == p.1 implies !hidden_empty(b0, x, y) || uncovered(b0, b, x, y) by {
        if in_bounds(b0, x, y) {
            assert(cell(b, x, y) == cell(b0, x, y) || hidden_empty(b0, x, y));
        }
    }
    assert forall|i: int| 0 <= i < st1.len() implies pending_ok(b0, sx, sy, (#[trigger] st1[i]).0 as int, st1[i].1 as int) by {
        assert(st1[i] == st[i]);
    }
}

/// Uncovering the popped coordinate, and queueing its neighbours where its
/// count is zero, keeps the step invariant.
#[verifier::rlimit(60)]
proof fn lemma_pop_uncover(b0: Board, b: Board, st: Seq<Pos>, sx: int, sy: int, c: u32)
    requires
        work_inv(b0, b, st, sx, sy),
        st.len() > 0,
        hidden_empty(b, st.last().0 as int, st.last().1 as int),
        cell(b, st.last().0 as int, st.last().1 as int) == Slot::Empty(false, c),
        i32::MIN < st.last().0 < i32::MAX,
        i32::MIN < st.last().1 < i32::MAX,
    ensures
        ({
            let p = st.last();
            let b2 = put(b, p.0 as int, p.1 as int, Slot::Empty(true, c));
            let st1 = st.drop_last();
            let st2 = if c == 0 {
                st1.push(Pos((p.0 - 1) as i32, p.1)).push(Pos((p.0 + 1) as i32, p.1)).push(
                    Pos(p.0, (p.1 - 1) as i32),
                ).push(Pos(p.0, (p.1 + 1) as i32))
            } else {
                st1
            };
            work_inv(b0, b2, st2, sx, sy)
        }),
{
    reveal(work_inv);
    let p = st.last();
    let x = p.0 as int;
    let y = p.1 as int;
    let b2 = put(b, x, y, Slot::Empty(true, c));
    let st1 = st.drop_last();
    let st2 = if c == 0 {
        st1.push(Pos((p.0 - 1) as i32, p.1)).push(Pos((p.0 + 1) as i32, p.1)).push(
            Pos(p.0, (p.1 - 1) as i32),
        ).push(Pos(p.0, (p.1 + 1) as i32))
    } else {
        st1
    };
    assert(pending_ok(b0, sx, sy, x, y)) by {
        assert(st[st.len() - 1] == p);
    }
    assert(cell(b, x, y) == cell(b0, x, y));
    assert(hidden_empty(b0, x, y));
    if !(x == sx && y == sy) {
        if flooded_zero(b0, sx, sy, x - 1, y) {
            lemma_floods_step(b0, sx, sy, x - 1, y, x, y);
        } else if flooded_zero(b0, sx, sy, x + 1, y) {
            lemma_floods_step(b0, sx, sy, x + 1, y, x, y);
        } else if flooded_zero(b0, sx, sy, x, y - 1) {
            lemma_floods_step(b0, sx, sy, x, y - 1, x, y);
        } else {
            lemma_floods_step(b0, sx, sy, x, y + 1, x, y);
        }
    } else {
        let path = seq![(sx, sy)];
        assert(cascade_path(b0, sx, sy, path));
    }
    assert(floods(b0, sx, sy, x, y));
    assert(b[y].len() == b[0].len());
    assert(rect(b2)) by {
        assert forall|j: int| 0 <= j < b2.len() implies #[trigger] b2[j].len() == b2[0].len() by {
            assert(b[j].len() == b[0].len());
        }
    }
    assert forall|xx: int, yy: int| in_bounds(b0, xx, yy) && !(xx == x && yy == y) implies #[trigger] cell(b2, xx, yy) == cell(b, xx, yy) by {
        if yy != y {
            assert(b2[yy] == b[yy]);
        }
    }
    assert(cell(b2, x, y) == Slot::Empty(true, c));
    // every entry of the new list may wait there
    assert forall|i: int| 0 <= i < st2.len() implies pending_ok(b0, sx, sy, (#[trigger] st2[i]).0 as int, st2[i].1 as int) by {
        if i < st1.len() {
            assert(st2[i] == st[i]);
        } else {
            assert(flooded_zero(b0, sx, sy, x, y));
        }
    }
    // entries that waited before still wait, or have just been uncovered
    assert forall|xx: int, yy: int| pending(st, xx, yy) implies (xx == x && yy == y) || pending(st2, xx, yy) by {
        let i = choose|i: int| 0 <= i < st.len() && (#[trigger] st[i]).0 == xx && st[i].1 == yy;
        if i < st.len() - 1 {
            assert(st2[i] == st[i]);
        }
    }
    assert forall|xx: int, yy: int| #[trigger] uncovered(b0, b, xx, yy) implies uncovered(b0, b2, xx, yy) by {
        if !(xx == x && yy == y) {
            assert(cell(b2, xx, yy) == cell(b, xx, yy));
        }
    }
    assert(uncovered(b0, b2, x, y));
    assert forall|xx: int, yy: int| #[trigger] uncovered(b0, b2, xx, yy) implies uncovered(b0, b, xx, yy) || (xx == x && yy == y) by {
        if !(xx == x && yy == y) {
            assert(cell(b2, xx, yy) == cell(b, xx, yy));
        }
    }
    if c == 0 {
        assert(st2[st2.len() - 4] == Pos((p.0 - 1) as i32, p.1));
        assert(st2[st2.len() - 3] == Pos((p.0 + 1) as i32, p.1));
        assert(st2[st2.len() - 2] == Pos(p.0, (p.1 - 1) as i32));
        assert(st2[st2.len() - 1] == Pos(p.0, (p.1 + 1) as i32));
        assert(pending(st2, x - 1, y));
        assert(pending(st2, x + 1, y));
        assert(pending(st2, x, y - 1));
        assert(pending(st2, x, y + 1));
    }
}

/// Uncovering a hidden cell keeps the board well formed.
proof fn lemma_uncover_keeps(b: Board, x: int, y: int, c: u32)
    requires
        rect(b),
        counts_bounded(b),
        cell(b, x, y) == Slot::Empty(false, c),
        in_bounds(b, x, y),
    ensures
        ({
            let b2 = put(b, x, y, Slot::Empty(true, c));
            &&& rect(b2)
            &&& counts_bounded(b2)
            &&& counted(b) ==> counted(b2)
            &&& forall|xx: int, yy: int| #[trigger] mine_at(b2, xx, yy) == mine_at(b, xx, yy)
            &&& forall|xx: int, yy: int| #[trigger] cell(b2, xx, yy) == Slot::Mine(true) && in_bounds(b2, xx, yy)
                ==> cell(b, xx, yy) == Slot::Mine(true)
        }),
{
    let b2 = put(b, x, y, Slot::Empty(true, c));
    assert(b[y].len() == b[0].len());
    assert forall|j: int| 0 <= j < b2.len() implies #[trigger] b2[j].len() == b2[0].len() by {
        assert(b[j].len() == b[0].len());
    }
    assert forall|xx: int, yy: int| in_bounds(b, xx, yy) && !(xx == x && yy == y) implies #[trigger] cell(b2, xx, yy) == cell(b, xx, yy) by {
        if yy != y {
            assert(b2[yy] == b[yy]);
        }
    }
    assert forall|xx: int, yy: int| #[trigger] mine_at(b2, xx, yy) == mine_at(b, xx, yy) by {
        if in_bounds(b, xx, yy) && !(xx == x && yy == y) {
            assert(cell(b2, xx, yy) == cell(b, xx, yy));
        }
    }
    if counted(b) {
        assert forall|xx: int, yy: int|
            in_bounds(b2, xx, yy) && (#[trigger] cell(b2, xx, yy)) is Empty implies cell(b2, xx, yy)->Empty_1
            == mine_count(b2, xx, yy) by {
            assert(mine_count(b2, xx, yy) == mine_count(b, xx, yy));
        }
    }
}

/// With nothing left to do, the uncovered cells are closed under the cascade.
proof fn lemma_work_closed(b0: Board, b: Board, st: Seq<Pos>, sx: int, sy: int)
    requires
        work_inv(b0, b, st, sx, sy),
        st.len() == 0,
    ensures
        rect(b0),
        rect(b),
        rows(b) == rows(b0),
        cols(b) == cols(b0),
        cascade_closed(b0, b, sx, sy),
        forall|x: int, y: int|
            in_bounds(b0, x, y) ==> {
                ||| #[trigger] cell(b, x, y) == cell(b0, x, y)
                ||| (hidden_empty(b0, x, y) && floods(b0, sx, sy, x, y) && cell(b, x, y) == Slot::Empty(
                    true,
                    cell(b0, x, y)->Empty_1,
                ))
            },
{
    reveal(work_inv);
}

/// Once the work list is empty, the board is the revealed board.
proof fn lemma_work_done(b0: Board, b: Board, st: Seq<Pos>, sx: int, sy: int)
    requires
        work_inv(b0, b, st, sx, sy),
        st.len() == 0,
    ensures
        b == reveal_board(b0, sx, sy),
{
    lemma_work_closed(b0, b, st, sx, sy);
    lemma_closed_floods(b0, b, sx, sy);
    let r = reveal_board(b0, sx, sy);
    assert forall|y: int| 0 <= y < b.len() implies b[y] =~= r[y] by {
        assert(b[y].len() == b[0].len());
        assert(b0[y].len() == b0[0].len());
        assert forall|x: int| 0 <= x < b[y].len() implies b[y][x] == r[y][x] by {
            assert(in_bounds(b0, x, y));
            assert(r[y][x] == revealed_cell(b0, sx, sy, x, y));
            if floods(b0, sx, sy, x, y) {
                assert(uncovered(b0, b, x, y));
            }
            assert(cell(b, x, y) == b[y][x]);
        }
    }
    assert(b =~= r);
}

/// A reveal changes no mine, and uncovers a hidden start.
pub proof fn lemma_reveal_board_keeps(b: Board, sx: int, sy: int)
    requires
        rect(b),
    ensures
        rect(reveal_board(b, sx, sy)),
        rows(reveal_board(b, sx, sy)) == rows(b),
        cols(reveal_board(b, sx, sy)) == cols(b),
        forall|x: int, y: int| #[trigger] mine_at(reveal_board(b, sx, sy), x, y) == mine_at(b, x, y),
        forall|x: int, y: int|
            in_bounds(b, x, y) ==> #[trigger] cell(reveal_board(b, sx, sy), x, y) == revealed_cell(b, sx, sy, x, y),
        hidden_empty(b, sx, sy) ==> floods(b, sx, sy, sx, sy),
{
    let r = reveal_board(b, sx, sy);
    assert(r[0].len() == b[0].len());
    assert forall|y: int| 0 <= y < r.len() implies #[trigger] r[y].len() == r[0].len() by {
        assert(b[y].len() == b[0].len());
    }
    assert forall|x: int, y: int| #[trigger] mine_at(r, x, y) == mine_at(b, x, y) by {
        if in_bounds(b, x, y) {
            assert(b[y].len() == b[0].len());
            if floods(b, sx, sy, x, y) {
                let path = choose|path: Seq<(int, int)>| #[trigger] cascade_path(b, sx, sy, path) && path.last() == (x, y);
                assert(path[path.len() - 1] == (x, y));
                assert(hidden_empty(b, x, y));
            }
        }
    }
    assert forall|x: int, y: int| in_bounds(b, x, y) implies #[trigger] cell(r, x, y) == revealed_cell(b, sx, sy, x, y) by {
        assert(b[y].len() == b[0].len());
    }
    if hidden_empty(b, sx, sy) {
        let path = seq![(sx, sy)];
        assert(cascade_path(b, sx, sy, path));
    }
}

impl Game {
    /// Reveals `pos`. Off the board, or on a mine or a visible cell, nothing
    /// changes. Otherwise the cell becomes visible and, where its count is
    /// zero, the reveal cascades to its four orthogonal neighbours.
    pub fn uncover(&mut self, pos: Pos)
        requires
            old(self).wf(),
        ensures
            final(self).wf(),
            final(self).phase == old(self).phase,
            final(self)@ == reveal_board(old(self)@, pos.0 as int, pos.1 as int),
            forall|x: int, y: int| #[trigger] mine_at(final(self)@, x, y) == mine_at(old(self)@, x, y),
    {
        let ghost b0 = self@;
        let ghost sx = pos.0 as int;
        let ghost sy = pos.1 as int;
        let mut stack: Vec<Pos> = Vec::new();
        stack.push(pos);
        assert(pending(stack@, sx, sy)) by {
            assert(stack@[0] == pos);
        }
        assert(work_inv(b0, self@, stack@, sx, sy)) by {
            reveal(work_inv);
            assert(stack@[0] == pos);
        }
        while stack.len() > 0
            invariant
                self.wf(),
                self.phase == old(self).phase,
                b0 == old(self)@,
                self@.len() == b0.len(),
                work_inv(b0, self@, stack@, sx, sy),
            decreases board_hidden(self@, self@.len() as int), stack@.len(),
        {
            let ghost st0 = stack@;
            let ghost before = self@;
            let p = stack.pop().unwrap();
            assert(st0.last() == p);
            assert(stack@ =~= st0.drop_last());
            let mut skip = true;
            if self.contains(p) {
                let s = *self.get(p);
                if let Slot::Empty(false, c) = s {
                    skip = false;
                    let x = p.0 as usize;
                    let y = p.1 as usize;
                    proof {
                        assert(cell(before, x as int, y as int) == Slot::Empty(false, c));
                        lemma_pop_uncover(b0, before, st0, sx, sy, c);
                        lemma_hidden_drops(before, x as int, y as int, Slot::Empty(true, c));
                        lemma_uncover_keeps(before, x as int, y as int, c);
                    }
                    self.set_cell(x, y, Slot::Empty(true, c));
                    if c == 0 {
                        stack.push(Pos(p.0 - 1, p.1));
                        stack.push(Pos(p.0 + 1, p.1));
                        stack.push(Pos(p.0, p.1 - 1));
                        stack.push(Pos(p.0, p.1 + 1));
                    }
                }
            }
            if skip {
                proof {
                    lemma_pop_skip(b0, before, st0, sx, sy);
                }
            }
        }
        proof {
            lemma_work_done(b0, self@, stack@, sx, sy);
            lemma_reveal_board_keeps(b0, sx, sy);
        }
    }
}

/// Revealing a coordinate that is off the board, a mine, or already visible
/// changes nothing.
pub proof fn lemma_reveal_noop(b: Board, sx: int, sy: int)
    requires
        rect(b),
        !hidden_empty(b, sx, sy),
    ensures
        reveal_board(b, sx, sy) == b,
{
    let r = reveal_board(b, sx, sy);
    assert forall|y: int| 0 <= y < b.len() implies r[y] =~= b[y] by {
        assert forall|x: int| 0 <= x < b[y].len() implies r[y][x] == b[y][x] by {
            if floods(b, sx, sy, x, y) {
                let path = choose|path: Seq<(int, int)>| #[trigger] cascade_path(b, sx, sy, path) && path.last() == (x, y);
                assert(path[0] == (sx, sy));
            }
        }
    }
    assert(r =~= b);
}

/// Revealing the same coordinate twice changes nothing beyond the first
/// reveal.
pub proof fn lemma_reveal_idempotent(b: Board, sx: int, sy: int)
    requires
        rect(b),
    ensures
        reveal_board(reveal_board(b, sx, sy), sx, sy) == reveal_board(b, sx, sy),
{
    let r = reveal_board(b, sx, sy);
    lemma_reveal_board_keeps(b, sx, sy);
    if in_bounds(b, sx, sy) {
        assert(cell(r, sx, sy) == revealed_cell(b, sx, sy, sx, sy));
    }
    assert(!hidden_empty(r, sx, sy));
    lemma_reveal_noop(r, sx, sy);
}

/// `(x, y)` lies in the rectangle of columns `x0..=x1` and rows `y0..=y1`.
pub open spec fn in_rect(x0: int, y0: int, x1: int, y1: int, x: int, y: int) -> bool {
    x0 <= x <= x1 && y0 <= y <= y1
}

/// `(x, y)` lies in the rectangle or shares an edge with one of its cells.
pub open spec fn near_rect(x0: int, y0: int, x1: int, y1: int, x: int, y: int) -> bool {
    (x0 <= x <= x1 && y0 - 1 <= y <= y1 + 1) || (y0 <= y <= y1 && x0 - 1 <= x <= x1 + 1)
}

/// The rectangle is on the board, all of it hidden with zero counts, and
/// each cell around it that shares an edge with it is a mine or has a
/// non-zero count.
pub open spec fn zero_pocket(b: Board, x0: int, y0: int, x1: int, y1: int) -> bool {
    &&& 0 <= x0 <= x1 < cols(b)
    &&& 0 <= y0 <= y1 < rows(b)
    &&& forall|x: int, y: int| in_rect(x0, y0, x1, y1, x, y) ==> #[trigger] cell(b, x, y) == Slot::Empty(false, 0)
    &&& forall|x: int, y: int|
        near_rect(x0, y0, x1, y1, x, y) && !in_rect(x0, y0, x1, y1, x, y) && in_bounds(b, x, y)
            ==> !zero_at(b, x, y)
}

proof fn lemma_pocket_row(b: Board, x0: int, y0: int, x1: int, y1: int, sx: int, sy: int, x: int)
    requires
        rect(b),
        zero_pocket(b, x0, y0, x1, y1),
        in_rect(x0, y0, x1, y1, sx, sy),
        in_rect(x0, y0, x1, y1, x, sy),
    ensures
        floods(b, sx, sy, x, sy),
    decreases (if x >= sx { x - sx } else { sx - x }),
{
    assert(cell(b, x, sy) == Slot::Empty(false, 0));
    if x == sx {
        let path = seq![(sx, sy)];
        assert(cascade_path(b, sx, sy, path));
        assert(path.last() == (sx, sy));
    } else if x > sx {
        lemma_pocket_row(b, x0, y0, x1, y1, sx, sy, x - 1);
        assert(cell(b, x - 1, sy) == Slot::Empty(false, 0));
        lemma_floods_step(b, sx, sy, x - 1, sy, x, sy);
    } else {
        lemma_pocket_row(b, x0, y0, x1, y1, sx, sy, x + 1);
        assert(cell(b, x + 1, sy) == Slot::Empty(false, 0));
        lemma_floods_step(b, sx, sy, x + 1, sy, x, sy);
    }
}

proof fn lemma_pocket_cell(b: Board, x0: int, y0: int, x1: int, y1: int, sx: int, sy: int, x: int, y: int)
    requires
        rect(b),
        zero_pocket(b, x0, y0, x1, y1),
        in_rect(x0, y0, x1, y1, sx, sy),
        in_rect(x0, y0, x1, y1, x, y),
    ensures
        floods(b, sx, sy, x, y),
    decreases (if y >= sy { y - sy } else { sy - y }),
{
    assert(cell(b, x, y) == Slot::Empty(false, 0));
    if y == sy {
        lemma_pocket_row(b, x0, y0, x1, y1, sx, sy, x);
    } else if y > sy {
        lemma_pocket_cell(b, x0, y0, x1, y1, sx, sy, x, y - 1);
        assert(cell(b, x, y - 1) == Slot::Empty(false, 0));
        lemma_floods_step(b, sx, sy, x, y - 1, x, y);
    } else {
        lemma_pocket_cell(b, x0, y0, x1, y1, sx, sy, x, y + 1);
        assert(cell(b, x, y + 1) == Slot::Empty(false, 0));
        lemma_floods_step(b, sx, sy, x, y + 1, x, y);
    }
}

proof fn lemma_pocket_path(b: Board, x0: int, y0: int, x1: int, y1: int, sx: int, sy: int, path: Seq<(int, int)>, i: int)
    requires
        zero_pocket(b, x0, y0, x1, y1),
        in_rect(x0, y0, x1, y1, sx, sy),
        cascade_path(b, sx, sy, path),
        0 <= i < path.len() - 1,
    ensures
        in_rect(x0, y0, x1, y1, path[i].0, path[i].1),
    decreases i,
{
    if i > 0 {
        lemma_pocket_path(b, x0, y0, x1, y1, sx, sy, path, i - 1);
        assert(adjacent(path[i - 1].0, path[i - 1].1, path[i].0, path[i].1));
        assert(zero_at(b, path[i].0, path[i].1));
        assert(hidden_empty(b, path[i].0, path[i].1));
    }
}

/// Revealing a cell inside a hidden rectangle of zero counts, walled in by
/// mines and non-zero counts, uncovers the whole rectangle and leaves
/// untouched every cell that is neither in it nor shares an edge with it.
pub proof fn lemma_flood_pocket(b: Board, x0: int, y0: int, x1: int, y1: int, sx: int, sy: int)
    requires
        rect(b),
        zero_pocket(b, x0, y0, x1, y1),
        in_rect(x0, y0, x1, y1, sx, sy),
    ensures
        forall|x: int, y: int|
            in_rect(x0, y0, x1, y1, x, y) ==> #[trigger] cell(reveal_board(b, sx, sy), x, y) == Slot::Empty(true, 0),
        forall|x: int, y: int|
            in_bounds(b, x, y) && !near_rect(x0, y0, x1, y1, x, y) ==> #[trigger] cell(reveal_board(b, sx, sy), x, y)
                == cell(b, x, y),
{
    lemma_reveal_board_keeps(b, sx, sy);
    assert forall|x: int, y: int| in_rect(x0, y0, x1, y1, x, y) implies #[trigger] cell(reveal_board(b, sx, sy), x, y)
        == Slot::Empty(true, 0) by {
        lemma_pocket_cell(b, x0, y0, x1, y1, sx, sy, x, y);
        assert(cell(b, x, y) == Slot::Empty(false, 0));
    }
    assert forall|x: int, y: int| in_bounds(b, x, y) && !near_rect(x0, y0, x1, y1, x, y) implies #[trigger] cell(
        reveal_board(b, sx, sy),
        x,
        y,
    ) == cell(b, x, y) by {
        if floods(b, sx, sy, x, y) {
            let path = choose|path: Seq<(int, int)>| #[trigger] cascade_path(b, sx, sy, path) && path.last() == (x, y);
            if path.len() > 1 {
                lemma_pocket_path(b, x0, y0, x1, y1, sx, sy, path, path.len() - 2);
                assert(adjacent(path[path.len() - 2].0, path[path.len() - 2].1, path[path.len() - 1].0, path[path.len() - 1].1));
            }
        }
    }
}

} // verus!
