//! The turn-by-turn controller: the first move lays the mines, each move
//! uncovers or trips, and the game ends on a tripped mine or when no live
//! mine is left.
use vstd::prelude::*;
use crate::flood::{floods, hidden_empty, lemma_reveal_board_keeps, reveal_board, revealed_cell};
use crate::grid::{
    any_live_mine, blank, cell, cols, counted, in_bounds, mine_at, mine_count, put, rows, Board, Game, Phase, Pos, Slot,
};
use crate::placement::{eligible, placed, CHANCE_SCALE};

verus! {

/// What a move led to.
#[derive(Clone, Copy, Debug, PartialEq, Eq, Structural)]
pub enum Outcome {
    /// The game was already over; nothing changed.
    Over,
    /// The coordinate lies off the board; nothing changed.
    OffBoard,
    /// The cell was visible already; the game goes on.
    AlreadyRevealed,
    /// Cells were uncovered; the game goes on.
    Continue,
    /// A mine was tripped; the game is lost and over.
    Lost,
    /// No mine is left that nobody has stepped on; the game is won and over.
    Won,
}

/// The board after a move at `(x, y)` once mines are laid.
pub open spec fn step_board(b: Board, x: int, y: int) -> Board {
    match cell(b, x, y) {
        Slot::Mine(false) => put(b, x, y, Slot::Mine(true)),
        Slot::Empty(false, _) => reveal_board(b, x, y),
        _ => b,
    }
}

/// What a move at `(x, y)` once mines are laid leads to.
pub open spec fn step_outcome(b: Board, x: int, y: int) -> Outcome {
    if cell(b, x, y) is Mine {
        Outcome::Lost
    } else if !any_live_mine(step_board(b, x, y)) {
        Outcome::Won
    } else if cell(b, x, y)->Empty_0 {
        Outcome::AlreadyRevealed
    } else {
        Outcome::Continue
    }
}

/// The phase a move's outcome leaves the game in.
pub open spec fn phase_after(o: Outcome) -> Phase {
    match o {
        Outcome::Lost | Outcome::Won | Outcome::Over => Phase::Terminal,
        _ => Phase::Active,
    }
}

/// The character that shows a cell: `!` for a tripped mine, `?` for
/// anything hidden, and the count's digit for a visible cell.
pub open spec fn glyph(s: Slot) -> char {
    match s {
        Slot::Mine(true) => '!',
        Slot::Mine(false) => '?',
        Slot::Empty(false, _) => '?',
        Slot::Empty(true, c) => if c <= 9 {
            char_from_digit(c)
        } else {
            '#'
        },
    }
}

pub open spec fn char_from_digit(c: u32) -> char {
    if c == 0 { '0' }
    else if c == 1 { '1' }
    else if c == 2 { '2' }
    else if c == 3 { '3' }
    else if c == 4 { '4' }
    else if c == 5 { '5' }
    else if c == 6 { '6' }
    else if c == 7 { '7' }
    else if c == 8 { '8' }
    else { '9' }
}

/// The character that shows `s`.
pub fn print_slot(s: Slot) -> (r: char)
    ensures
        r == glyph(s),
{
    match s {
        Slot::Mine(true) => '!',
        Slot::Mine(false) => '?',
        Slot::Empty(false, _) => '?',
        Slot::Empty(true, c) => {
            if c == 0 { '0' }
            else if c == 1 { '1' }
            else if c == 2 { '2' }
            else if c == 3 { '3' }
            else if c == 4 { '4' }
            else if c == 5 { '5' }
            else if c == 6 { '6' }
            else if c == 7 { '7' }
            else if c == 8 { '8' }
            else if c == 9 { '9' }
            else { '#' }
        },
    }
}

impl Game {
    /// A fresh game of `width` by `height` cells, waiting for its first move.
    pub open spec fn fresh(&self) -> bool {
        self.phase == Phase::Setup && blank(self@)
    }

    /// The characters that show row `y`, one for each column.
    pub fn row_glyphs(&self, y: usize) -> (r: Vec<char>)
        requires
            self.wf(),
            y < rows(self@),
        ensures
            r@.len() == cols(self@),
            forall|x: int| 0 <= x < cols(self@) ==> r@[x] == glyph(#[trigger] cell(self@, x, y as int)),
    {
        let w = self.width();
        let mut out: Vec<char> = Vec::with_capacity(w);
        let mut x: usize = 0;
        while x < w
            invariant
                self.wf(),
                y < rows(self@),
                w as int == cols(self@),
                x <= w,
                out@.len() == x,
                forall|xx: int| 0 <= xx < x ==> out@[xx] == glyph(#[trigger] cell(self@, xx, y as int)),
            decreases w - x,
        {
            let s = *self.get(Pos(x as i32, y as i32));
            out.push(print_slot(s));
            x = x + 1;
        }
        out
    }

    /// Plays a move at `pos` once mines are laid: trips a mine, or uncovers
    /// a hidden cell, then checks whether any live mine is left.
    pub fn step(&mut self, pos: Pos) -> (r: Outcome)
        requires
            old(self).wf(),
            old(self).phase == Phase::Active,
            in_bounds(old(self)@, pos.0 as int, pos.1 as int),
        ensures
            final(self).wf(),
            r == step_outcome(old(self)@, pos.0 as int, pos.1 as int),
            final(self)@ == step_board(old(self)@, pos.0 as int, pos.1 as int),
            final(self).phase == phase_after(r),
            forall|x: int, y: int| #[trigger] mine_at(final(self)@, x, y) == mine_at(old(self)@, x, y),
    {
        let ghost b0 = self@;
        let s = *self.get(pos);
        match s {
            Slot::Mine(_) => {
                let x = pos.0 as usize;
                let y = pos.1 as usize;
                self.set_cell(x, y, Slot::Mine(true));
                self.phase = Phase::Terminal;
                proof {
                    assert(b0[y as int].len() == b0[0].len());
                    assert forall|xx: int, yy: int| in_bounds(self@, xx, yy) && !(xx == x && yy == y)
                        implies #[trigger] cell(self@, xx, yy) == cell(b0, xx, yy) by {
                        if yy != y {
                            assert(self@[yy] == b0[yy]);
                        }
                    }
                    assert forall|xx: int, yy: int| #[trigger] mine_at(self@, xx, yy) == mine_at(b0, xx, yy) by {
                        if in_bounds(b0, xx, yy) && !(xx == x && yy == y) {
                            assert(cell(self@, xx, yy) == cell(b0, xx, yy));
                        }
                    }
                    assert forall|xx: int, yy: int|
                        in_bounds(self@, xx, yy) && (#[trigger] cell(self@, xx, yy)) is Empty implies
                        cell(self@, xx, yy)->Empty_1 == mine_count(self@, xx, yy)
                        && cell(self@, xx, yy)->Empty_1 <= 8 by {
                        assert(mine_count(self@, xx, yy) == mine_count(b0, xx, yy));
                        assert(cell(self@, xx, yy) == cell(b0, xx, yy));
                    }
                }
                Outcome::Lost
            },
            Slot::Empty(visible, _) => {
                if !visible {
                    self.uncover(pos);
                }
                if self.still_mines() {
                    if visible {
                        Outcome::AlreadyRevealed
                    } else {
                        Outcome::Continue
                    }
                } else {
                    self.phase = Phase::Terminal;
                    Outcome::Won
                }
            },
        }
    }

    /// The first move: lays the mines around `pos`, then plays it.
    #[verifier::rlimit(40)]
    fn first_move(&mut self, pos: Pos, chance: u64) -> (r: Outcome)
        requires
            old(self).wf(),
            old(self).phase == Phase::Setup,
            in_bounds(old(self)@, pos.0 as int, pos.1 as int),
        ensures
            final(self).wf(),
            final(self).phase == phase_after(r),
            rows(final(self)@) == rows(old(self)@),
            cols(final(self)@) == cols(old(self)@),
            counted(final(self)@),
            r != Outcome::Lost ==> (r == Outcome::Won <==> !any_live_mine(final(self)@)),
            forall|x: int, y: int|
                in_bounds(old(self)@, x, y) ==> {
                    &&& #[trigger] mine_at(final(self)@, x, y) ==> mine_at(old(self)@, x, y) || eligible(pos, x, y)
                    &&& chance == 0 ==> mine_at(final(self)@, x, y) == mine_at(old(self)@, x, y)
                    &&& (chance >= CHANCE_SCALE && eligible(pos, x, y)) ==> mine_at(final(self)@, x, y)
                },
            exists|b1: Board|
                #![trigger placed(old(self)@, b1, pos, chance)]
                placed(old(self)@, b1, pos, chance) && final(self)@ == step_board(b1, pos.0 as int, pos.1 as int) && r
                    == step_outcome(b1, pos.0 as int, pos.1 as int),
            old(self).fresh() ==> {
                &&& r == Outcome::Won || r == Outcome::Continue
                &&& cell(final(self)@, pos.0 as int, pos.1 as int) is Empty
                &&& cell(final(self)@, pos.0 as int, pos.1 as int)->Empty_0
            },
    {
        let ghost b0 = self@;
        self.populate(pos, chance);
        let ghost b1 = self@;
        let r = self.step(pos);
        proof {
            let x = pos.0 as int;
            let y = pos.1 as int;
            assert(in_bounds(b1, x, y));
            lemma_reveal_board_keeps(b1, x, y);
            if r != Outcome::Lost {
                assert(cell(b1, x, y) is Empty);
            }
            assert forall|xx: int, yy: int| in_bounds(b0, xx, yy) && chance >= CHANCE_SCALE && eligible(pos, xx, yy)
                implies #[trigger] mine_at(self@, xx, yy) by {
                assert(mine_at(b1, xx, yy));
            }
            if old(self).fresh() {
                assert(cell(b0, x, y) == Slot::Empty(false, 0));
                assert(!mine_at(b0, x, y));
                assert(!eligible(pos, x, y));
                assert(!mine_at(b1, x, y));
                assert(cell(b1, x, y) is Empty);
                assert(!cell(b1, x, y)->Empty_0);
                assert(hidden_empty(b1, x, y));
                assert(floods(b1, x, y, x, y));
                assert(cell(self@, x, y) == revealed_cell(b1, x, y, x, y));
            }
            assert(placed(b0, b1, pos, chance) && self@ == step_board(b1, x, y) && r == step_outcome(b1, x, y));
        }
        r
    }

    /// Plays a move at `pos`. The first move on the board lays the mines,
    /// each cell outside its row and column receiving one with a chance of
    /// `chance / CHANCE_SCALE`, and counts them; then it is played like any
    /// other. A move off the board, or after the game ended, changes nothing.
    pub fn play(&mut self, pos: Pos, chance: u64) -> (r: Outcome)
        requires
            old(self).wf(),
        ensures
            final(self).wf(),
            old(self).phase == Phase::Terminal ==> r == Outcome::Over && final(self)@ == old(self)@
                && final(self).phase == Phase::Terminal,
            (old(self).phase != Phase::Terminal && !in_bounds(old(self)@, pos.0 as int, pos.1 as int)) ==> r
                == Outcome::OffBoard && final(self)@ == old(self)@ && final(self).phase == old(self).phase,
            (old(self).phase == Phase::Active && in_bounds(old(self)@, pos.0 as int, pos.1 as int)) ==> {
                &&& r == step_outcome(old(self)@, pos.0 as int, pos.1 as int)
                &&& final(self)@ == step_board(old(self)@, pos.0 as int, pos.1 as int)
                &&& final(self).phase == phase_after(r)
            },
            (old(self).phase == Phase::Setup && in_bounds(old(self)@, pos.0 as int, pos.1 as int)) ==> {
                &&& final(self).phase == phase_after(r)
                &&& rows(final(self)@) == rows(old(self)@)
                &&& cols(final(self)@) == cols(old(self)@)
                &&& counted(final(self)@)
                &&& r != Outcome::Lost ==> (r == Outcome::Won <==> !any_live_mine(final(self)@))
                &&& forall|x: int, y: int|
                    in_bounds(old(self)@, x, y) ==> {
                        &&& #[trigger] mine_at(final(self)@, x, y) ==> mine_at(old(self)@, x, y) || eligible(pos, x, y)
                        &&& chance == 0 ==> mine_at(final(self)@, x, y) == mine_at(old(self)@, x, y)
                        &&& (chance >= CHANCE_SCALE && eligible(pos, x, y)) ==> mine_at(final(self)@, x, y)
                    }
                &&& exists|b1: Board|
                    #![trigger placed(old(self)@, b1, pos, chance)]
                    placed(old(self)@, b1, pos, chance) && final(self)@ == step_board(b1, pos.0 as int, pos.1 as int)
                        && r == step_outcome(b1, pos.0 as int, pos.1 as int)
                &&& old(self).fresh() ==> {
                    &&& r == Outcome::Won || r == Outcome::Continue
                    &&& cell(final(self)@, pos.0 as int, pos.1 as int) is Empty
                    &&& cell(final(self)@, pos.0 as int, pos.1 as int)->Empty_0
                }
            },
    {
        if self.phase == Phase::Terminal {
            return Outcome::Over;
        }
        if !self.contains(pos) {
            return Outcome::OffBoard;
        }
        if self.phase == Phase::Setup {
            self.first_move(pos, chance)
        } else {
            self.step(pos)
        }
    }
}

} // verus!
