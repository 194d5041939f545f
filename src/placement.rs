//! Laying mines around the first move, and counting each cell's neighbours.
use vstd::prelude::*;
use crate::grid::{
    cell, cols, counted, in_bounds, mine_at, mine_count, rect, rows, Board, Game, Phase,
    Pos, Slot,
};

verus! {

/// A chance of `n / CHANCE_SCALE` that a given cell receives a mine: 0 never
/// lays one, `CHANCE_SCALE` or more always does.
pub const CHANCE_SCALE: u64 = 4294967296;

/// Relies on rand::random: a uniformly drawn value from the thread-local
/// generator. Nothing is promised of the value.
pub assume_specification<T>[ rand::random::<T> ]() -> (r: T)
    where
        rand::distributions::Standard: rand::distributions::Distribution<T>,
;

/// A mine may go at `(x, y)` only if it shares neither row nor column with
/// the first move.
pub open spec fn eligible(safe: Pos, x: int, y: int) -> bool {
    x != safe.0 && y != safe.1
}

/// A draw lays a mine when it falls below the chance.
pub open spec fn hits(draw: u32, chance: u64) -> bool {
    (draw as u64) < chance
}

/// `draws` has one value for each cell of `b`.
pub open spec fn draws_fit(b: Board, draws: Seq<Vec<u32>>) -> bool {
    &&& draws.len() == b.len()
    &&& forall|y: int| 0 <= y < b.len() ==> (#[trigger] draws[y])@.len() == b[y].len()
}

/// The cell at `(x, y)` once mines are laid with `draws`.
pub open spec fn laid_cell(b: Board, safe: Pos, draws: Seq<Vec<u32>>, chance: u64, x: int, y: int) -> Slot {
    if eligible(safe, x, y) && hits(draws[y]@[x], chance) {
        Slot::Mine(false)
    } else {
        cell(b, x, y)
    }
}

/// The cell at `(x, y)` once its count is brought up to date.
pub open spec fn counted_cell(b: Board, x: int, y: int) -> Slot {
    match cell(b, x, y) {
        Slot::Empty(v, _) => Slot::Empty(v, mine_count(b, x, y) as u32),
        m => m,
    }
}

/// Both boards have the same shape and their mines at the same places.
pub open spec fn same_mines(a: Board, b: Board) -> bool {
    &&& rect(a) && rect(b)
    &&& rows(a) == rows(b) && cols(a) == cols(b)
    &&& forall|x: int, y: int| #[trigger] mine_at(a, x, y) == mine_at(b, x, y)
}

/// `b1` is a board that laying mines around `safe` with the given chance,
/// then counting, can make of `b0`: the same shape; every mine of `b0` kept;
/// a new mine only outside the row and column of `safe`, none at a chance of
/// zero and one on each such cell at a full chance; visibility kept; and
/// every empty cell's count exact.
pub open spec fn placed(b0: Board, b1: Board, safe: Pos, chance: u64) -> bool {
    &&& rect(b1)
    &&& rows(b1) == rows(b0)
    &&& cols(b1) == cols(b0)
    &&& counted(b1)
    &&& forall|x: int, y: int|
        in_bounds(b0, x, y) ==> {
            let c = #[trigger] cell(b1, x, y);
            &&& mine_at(b1, x, y) == mine_at(b0, x, y) || (eligible(safe, x, y) && c == Slot::Mine(false))
            &&& chance == 0 ==> mine_at(b1, x, y) == mine_at(b0, x, y)
            &&& (chance >= CHANCE_SCALE && eligible(safe, x, y)) ==> c == Slot::Mine(false)
            &&& cell(b0, x, y) is Mine ==> c == cell(b0, x, y)
            &&& (cell(b0, x, y) is Empty && c is Empty) ==> c == Slot::Empty(
                cell(b0, x, y)->Empty_0,
                mine_count(b1, x, y) as u32,
            )
        }
}

/// Laying mines on a board without any, then counting, leaves the row and
/// the column of the first move free of mines and every empty cell holding
/// the exact number of mines among its neighbours; this holds for every
/// chance and every draw.
pub proof fn lemma_placement_spares_safe_lines(b0: Board, b1: Board, safe: Pos, chance: u64)
    requires
        rect(b0),
        placed(b0, b1, safe, chance),
        forall|x: int, y: int| !#[trigger] mine_at(b0, x, y),
    ensures
        forall|x: int, y: int| in_bounds(b1, x, y) && (x == safe.0 || y == safe.1) ==> !#[trigger] mine_at(b1, x, y),
        forall|x: int, y: int|
            in_bounds(b1, x, y) && (#[trigger] cell(b1, x, y)) is Empty ==> cell(b1, x, y)->Empty_1 == mine_count(b1, x, y),
{
    assert forall|x: int, y: int| in_bounds(b1, x, y) && (x == safe.0 || y == safe.1) implies !#[trigger] mine_at(b1, x, y) by {
        assert(in_bounds(b0, x, y));
        assert(cell(b1, x, y) == cell(b1, x, y));
    }
}

impl Game {
    /// Lays a mine on each cell outside the row and column of `safe` whose
    /// draw falls below `chance`; every other cell stays as it was.
    pub fn place_mines(&mut self, safe: Pos, draws: &Vec<Vec<u32>>, chance: u64)
        requires
            old(self).wf(),
            old(self).phase == Phase::Setup,
            draws_fit(old(self)@, draws@),
        ensures
            final(self).wf(),
            final(self).phase == Phase::Setup,
            rows(final(self)@) == rows(old(self)@),
            cols(final(self)@) == cols(old(self)@),
            forall|x: int, y: int|
                in_bounds(old(self)@, x, y) ==> #[trigger] cell(final(self)@, x, y) == laid_cell(
                    old(self)@,
                    safe,
                    draws@,
                    chance,
                    x,
                    y,
                ),
    {
        let ghost b0 = self@;
        let h = self.height();
        let w = self.width();
        let mut y: usize = 0;
        while y < h
            invariant
                self.wf(),
                self.phase == Phase::Setup,
                draws_fit(b0, draws@),
                rect(b0),
                h as int == rows(b0),
                w as int == cols(b0),
                rows(self@) == rows(b0),
                cols(self@) == cols(b0),
                y <= h,
                forall|xx: int, yy: int| in_bounds(b0, xx, yy) ==> #[trigger] cell(self@, xx, yy) == (
                    if yy < y { laid_cell(b0, safe, draws@, chance, xx, yy) } else { cell(b0, xx, yy) }),
            decreases h - y,
        {
            assert(draws@[y as int]@.len() == w) by {
                assert(b0[y as int].len() == b0[0].len());
            }
            let mut x: usize = 0;
            while x < w
                invariant
                    self.wf(),
                    self.phase == Phase::Setup,
                    draws_fit(b0, draws@),
                    rect(b0),
                    draws@[y as int]@.len() == w,
                    h as int == rows(b0),
                    w as int == cols(b0),
                    rows(self@) == rows(b0),
                    cols(self@) == cols(b0),
                    y < h,
                    x <= w,
                    forall|xx: int, yy: int| in_bounds(b0, xx, yy) ==> #[trigger] cell(self@, xx, yy) == (
                        if yy < y || (yy == y && xx < x) { laid_cell(b0, safe, draws@, chance, xx, yy) } else { cell(b0, xx, yy) }),
                decreases w - x,
            {
                let d = draws[y][x];
                assert(d == draws@[y as int]@[x as int]);
                let ghost before = self@;
                if safe.0 as i64 != x as i64 && safe.1 as i64 != y as i64 && (d as u64) < chance {
                    self.set_cell(x, y, Slot::Mine(false));
                    assert forall|xx: int, yy: int| in_bounds(self@, xx, yy) && (#[trigger] cell(self@, xx, yy)) is Empty
                        implies cell(self@, xx, yy)->Empty_1 <= 8 by {
                        assert(cell(self@, xx, yy) == cell(before, xx, yy) || (xx == x && yy == y));
                    }
                    assert forall|xx: int, yy: int| in_bounds(self@, xx, yy)
                        implies #[trigger] cell(self@, xx, yy) != Slot::Mine(true) by {
                        assert(cell(self@, xx, yy) == cell(before, xx, yy) || (xx == x && yy == y));
                    }
                }
                assert forall|xx: int, yy: int| in_bounds(b0, xx, yy) implies #[trigger] cell(self@, xx, yy) == (
                    if yy < y || (yy == y && xx < x + 1) { laid_cell(b0, safe, draws@, chance, xx, yy) } else { cell(b0, xx, yy) }) by {
                    if xx != x || yy != y {
                        assert(cell(self@, xx, yy) == cell(before, xx, yy));
                    }
                }
                x = x + 1;
            }
            y = y + 1;
        }
    }

    /// The cell at `pos` with its count recomputed from the mines around it;
    /// a mine comes back as it is.
    pub fn count(&self, pos: Pos) -> (r: Slot)
        requires
            self.wf(),
            in_bounds(self@, pos.0 as int, pos.1 as int),
        ensures
            r == counted_cell(self@, pos.0 as int, pos.1 as int),
    {
        let slot = *self.get(pos);
        match slot {
            Slot::Empty(visible, _) => {
                let x = pos.0;
                let y = pos.1;
                let mut n: u32 = 0;
                if self.is_mine(Pos(x - 1, y + 1)) { n = n + 1; }
                if self.is_mine(Pos(x, y + 1)) { n = n + 1; }
                if self.is_mine(Pos(x + 1, y + 1)) { n = n + 1; }
                if self.is_mine(Pos(x - 1, y)) { n = n + 1; }
                if self.is_mine(Pos(x + 1, y)) { n = n + 1; }
                if self.is_mine(Pos(x - 1, y - 1)) { n = n + 1; }
                if self.is_mine(Pos(x, y - 1)) { n = n + 1; }
                if self.is_mine(Pos(x + 1, y - 1)) { n = n + 1; }
                Slot::Empty(visible, n)
            },
            m => m,
        }
    }

    /// Lays mines at random: each cell outside the row and column of `safe`
    /// receives one with a chance of `chance / CHANCE_SCALE`. Cells in that
    /// row or column never do.
    pub fn add_mines(&mut self, safe: Pos, chance: u64)
        requires
            old(self).wf(),
            old(self).phase == Phase::Setup,
        ensures
            final(self).wf(),
            final(self).phase == Phase::Setup,
            rows(final(self)@) == rows(old(self)@),
            cols(final(self)@) == cols(old(self)@),
            forall|x: int, y: int|
                in_bounds(old(self)@, x, y) ==> {
                    let c = #[trigger] cell(final(self)@, x, y);
                    &&& c == cell(old(self)@, x, y) || (eligible(safe, x, y) && c == Slot::Mine(false))
                    &&& chance == 0 ==> c == cell(old(self)@, x, y)
                    &&& (chance >= CHANCE_SCALE && eligible(safe, x, y)) ==> c == Slot::Mine(false)
                },
    {
        let h = self.height();
        let w = self.width();
        let mut draws: Vec<Vec<u32>> = Vec::with_capacity(h);
        let mut y: usize = 0;
        while y < h
            invariant
                self.wf(),
                h as int == rows(self@),
                w as int == cols(self@),
                y <= h,
                draws@.len() == y,
                forall|i: int| 0 <= i < y ==> (#[trigger] draws@[i])@.len() == w,
            decreases h - y,
        {
            let mut row: Vec<u32> = Vec::with_capacity(w);
            let mut x: usize = 0;
            while x < w
                invariant
                    x <= w,
                    row@.len() == x,
                decreases w - x,
            {
                row.push(rand::random::<u32>());
                x = x + 1;
            }
            draws.push(row);
            y = y + 1;
        }
        assert forall|i: int| 0 <= i < self@.len() implies (#[trigger] draws@[i])@.len() == self@[i].len() by {
            assert(self@[i].len() == self@[0].len());
        }
        self.place_mines(safe, &draws, chance);
        assert forall|x: int, y: int| in_bounds(old(self)@, x, y) && hits(draws@[y]@[x], chance)
            implies chance > 0 by {}
        assert forall|d: u32| chance >= CHANCE_SCALE implies #[trigger] hits(d, chance) by {}
    }

    /// Brings every empty cell's count up to date with the mines around it;
    /// mines and visibility stay as they are.
    pub fn finalize_counts(&mut self)
        requires
            old(self).wf(),
            old(self).phase == Phase::Setup,
        ensures
            final(self).wf(),
            final(self).phase == Phase::Setup,
            same_mines(old(self)@, final(self)@),
            counted(final(self)@),
            forall|x: int, y: int|
                in_bounds(old(self)@, x, y) ==> #[trigger] cell(final(self)@, x, y) == counted_cell(old(self)@, x, y),
    {
        let ghost b0 = self@;
        let h = self.height();
        let w = self.width();
        let mut y: usize = 0;
        while y < h
            invariant
                self.wf(),
                self.phase == Phase::Setup,
                rect(b0),
                h as int == rows(b0),
                w as int == cols(b0),
                same_mines(b0, self@),
                y <= h,
                forall|xx: int, yy: int| in_bounds(b0, xx, yy) ==> #[trigger] cell(self@, xx, yy) == (
                    if yy < y { counted_cell(b0, xx, yy) } else { cell(b0, xx, yy) }),
            decreases h - y,
        {
            let mut x: usize = 0;
            while x < w
                invariant
                    self.wf(),
                    self.phase == Phase::Setup,
                    rect(b0),
                    h as int == rows(b0),
                    w as int == cols(b0),
                    same_mines(b0, self@),
                    y < h,
                    x <= w,
                    forall|xx: int, yy: int| in_bounds(b0, xx, yy) ==> #[trigger] cell(self@, xx, yy) == (
                        if yy < y || (yy == y && xx < x) { counted_cell(b0, xx, yy) } else { cell(b0, xx, yy) }),
                decreases w - x,
            {
                let ghost before = self@;
                let s = self.count(Pos(x as i32, y as i32));
                assert(mine_count(before, x as int, y as int) == mine_count(b0, x as int, y as int));
                self.set_cell(x, y, s);
                assert forall|xx: int, yy: int| #[trigger] mine_at(b0, xx, yy) == mine_at(self@, xx, yy) by {
                    if xx != x || yy != y {
                        if in_bounds(b0, xx, yy) {
                            assert(cell(self@, xx, yy) == cell(before, xx, yy));
                        }
                    }
                }
                assert forall|xx: int, yy: int| in_bounds(self@, xx, yy) && (#[trigger] cell(self@, xx, yy)) is Empty
                    implies cell(self@, xx, yy)->Empty_1 <= 8 by {
                    assert(cell(self@, xx, yy) == cell(before, xx, yy) || (xx == x && yy == y));
                }
                assert forall|xx: int, yy: int| in_bounds(self@, xx, yy)
                    implies #[trigger] cell(self@, xx, yy) != Slot::Mine(true) by {
                    assert(cell(self@, xx, yy) == cell(before, xx, yy) || (xx == x && yy == y));
                }
                assert forall|xx: int, yy: int| in_bounds(b0, xx, yy) implies #[trigger] cell(self@, xx, yy) == (
                    if yy < y || (yy == y && xx < x + 1) { counted_cell(b0, xx, yy) } else { cell(b0, xx, yy) }) by {
                    if xx != x || yy != y {
                        assert(cell(self@, xx, yy) == cell(before, xx, yy));
                    }
                }
                x = x + 1;
            }
            y = y + 1;
        }
        assert forall|x: int, y: int|
            in_bounds(self@, x, y) && (#[trigger] cell(self@, x, y)) is Empty implies cell(self@, x, y)->Empty_1
            == mine_count(self@, x, y) by {
            assert(mine_count(self@, x, y) == mine_count(b0, x, y));
        }
    }

    /// Sets up the board for the first move at `safe`: lays mines at random
    /// outside its row and column, counts every cell's neighbours, and starts
    /// the game.
    pub fn populate(&mut self, safe: Pos, chance: u64)
        requires
            old(self).wf(),
            old(self).phase == Phase::Setup,
        ensures
            final(self).wf(),
            final(self).phase == Phase::Active,
            placed(old(self)@, final(self)@, safe, chance),
            (forall|x: int, y: int| !#[trigger] mine_at(old(self)@, x, y)) ==> forall|x: int, y: int|
                #[trigger] mine_at(final(self)@, x, y) ==> eligible(safe, x, y),
    {
        let ghost b0 = self@;
        self.add_mines(safe, chance);
        let ghost b1 = self@;
        self.finalize_counts();
        self.phase = Phase::Active;
        assert forall|x: int, y: int| #[trigger] mine_at(self@, x, y) && !mine_at(b0, x, y) implies eligible(safe, x, y) by {
            assert(mine_at(b1, x, y));
        }
        assert(placed(b0, self@, safe, chance));
    }
}

} // verus!
