//! The board: cells, coordinates, and the bounds-checked queries on them.
use vstd::prelude::*;

verus! {

/// One position of the board.
#[derive(Clone, Copy, Debug, PartialEq, Eq, Structural)]
pub enum Slot {
    /// A mine; the flag says whether the player has stepped on it.
    Mine(bool),
    /// A cell without a mine: whether it is visible, and how many of its
    /// eight neighbours hold a mine.
    Empty(bool, u32),
}

/// A coordinate: column first, then row. Either may lie off the board.
#[derive(Clone, Copy, Debug, PartialEq, Eq, Structural)]
pub struct Pos(pub i32, pub i32);

/// Where a game stands: no mines laid yet, mines laid and moves accepted,
/// or over.
#[derive(Clone, Copy, Debug, PartialEq, Eq, Structural)]
pub enum Phase {
    Setup,
    Active,
    Terminal,
}

/// A game: the board, rows of cells, and its phase.
pub struct Game {
    pub board: Vec<Vec<Slot>>,
    pub phase: Phase,
}

/// The board as rows of cells.
pub type Board = Seq<Seq<Slot>>;

/// A board is a non-empty rectangle whose coordinates fit in an `i32`.
pub open spec fn rect(b: Board) -> bool {
    &&& 0 < b.len() <= i32::MAX
    &&& 0 < b[0].len() <= i32::MAX
    &&& forall|y: int| 0 <= y < b.len() ==> #[trigger] b[y].len() == b[0].len()
}

pub open spec fn rows(b: Board) -> int {
    b.len() as int
}

pub open spec fn cols(b: Board) -> int {
    b[0].len() as int
}

pub open spec fn in_bounds(b: Board, x: int, y: int) -> bool {
    0 <= y < rows(b) && 0 <= x < cols(b)
}

/// The cell at column `x` and row `y`.
pub open spec fn cell(b: Board, x: int, y: int) -> Slot {
    b[y][x]
}

/// Whether `(x, y)` is on the board and holds a mine, tripped or not.
pub open spec fn mine_at(b: Board, x: int, y: int) -> bool {
    in_bounds(b, x, y) && cell(b, x, y) is Mine
}

/// Whether `(x, y)` is on the board and holds a mine not yet stepped on.
pub open spec fn live_mine_at(b: Board, x: int, y: int) -> bool {
    in_bounds(b, x, y) && cell(b, x, y) == Slot::Mine(false)
}

/// Whether any mine is left that nobody has stepped on.
pub open spec fn any_live_mine(b: Board) -> bool {
    exists|x: int, y: int| #[trigger] live_mine_at(b, x, y)
}

/// Every cell of the board is hidden, mine-free and counts nothing.
pub open spec fn blank(b: Board) -> bool {
    forall|x: int, y: int| in_bounds(b, x, y) ==> #[trigger] cell(b, x, y) == Slot::Empty(false, 0)
}

pub open spec fn ind(b: bool) -> nat {
    if b {
        1
    } else {
        0
    }
}

/// How many of the eight neighbours of `(x, y)` hold a mine; neighbours off
/// the board count for nothing.
pub open spec fn mine_count(b: Board, x: int, y: int) -> nat {
    ind(mine_at(b, x - 1, y + 1)) + ind(mine_at(b, x, y + 1)) + ind(mine_at(b, x + 1, y + 1))
        + ind(mine_at(b, x - 1, y)) + ind(mine_at(b, x + 1, y))
        + ind(mine_at(b, x - 1, y - 1)) + ind(mine_at(b, x, y - 1)) + ind(mine_at(b, x + 1, y - 1))
}

/// Every empty cell holds the exact number of mines around it.
pub open spec fn counted(b: Board) -> bool {
    forall|x: int, y: int|
        in_bounds(b, x, y) && (#[trigger] cell(b, x, y)) is Empty ==> cell(b, x, y)->Empty_1 == mine_count(b, x, y)
}

/// No empty cell claims more than eight mines around it.
pub open spec fn counts_bounded(b: Board) -> bool {
    forall|x: int, y: int|
        in_bounds(b, x, y) && (#[trigger] cell(b, x, y)) is Empty ==> cell(b, x, y)->Empty_1 <= 8
}

/// `b` with the cell at `(x, y)` replaced by `s`.
pub open spec fn put(b: Board, x: int, y: int, s: Slot) -> Board {
    b.update(y, b[y].update(x, s))
}

/// The game is won exactly when no mine is left untripped: a board whose
/// mines are all tripped, or that has no mine at all, is won; one with an
/// untripped mine is not.
pub proof fn lemma_win_check(b: Board)
    ensures
        (forall|x: int, y: int| #[trigger] mine_at(b, x, y) ==> cell(b, x, y) == Slot::Mine(true)) ==> !any_live_mine(b),
        (forall|x: int, y: int| !#[trigger] mine_at(b, x, y)) ==> !any_live_mine(b),
        forall|x: int, y: int| #[trigger] live_mine_at(b, x, y) ==> any_live_mine(b),
{
    if any_live_mine(b) {
        let (x, y) = choose|x: int, y: int| #[trigger] live_mine_at(b, x, y);
        assert(mine_at(b, x, y));
    }
}

impl View for Game {
    type V = Board;

    open spec fn view(&self) -> Board {
        Seq::new(self.board@.len(), |y: int| self.board@[y]@)
    }
}

impl Game {
    /// The rows have one length and the board is not empty; no count
    /// exceeds eight; once mines are laid every count is exact; and a
    /// tripped mine ends the game.
    pub open spec fn wf(&self) -> bool {
        &&& rect(self@)
        &&& counts_bounded(self@)
        &&& self.phase != Phase::Setup ==> counted(self@)
        &&& self.phase != Phase::Terminal ==> forall|x: int, y: int|
            in_bounds(self@, x, y) ==> #[trigger] cell(self@, x, y) != Slot::Mine(true)
    }

    /// A new game of `width` columns and `height` rows, every cell hidden and
    /// empty; `None` when either size is zero.
    pub fn new(width: usize, height: usize) -> (r: Option<Game>)
        requires
            width <= i32::MAX,
            height <= i32::MAX,
        ensures
            r is None <==> (width == 0 || height == 0),
            r matches Some(g) ==> {
                &&& g.wf()
                &&& g.phase == Phase::Setup
                &&& rows(g@) == height as int
                &&& cols(g@) == width as int
                &&& blank(g@)
            },
    {
        if width == 0 || height == 0 {
            return None;
        }
        let mut board: Vec<Vec<Slot>> = Vec::with_capacity(height);
        let mut i: usize = 0;
        while i < height
            invariant
                i <= height,
                board@.len() == i,
                forall|y: int| 0 <= y < i ==> #[trigger] board@[y]@ =~= Seq::new(width as nat, |x: int| Slot::Empty(false, 0)),
            decreases height - i,
        {
            let mut row: Vec<Slot> = Vec::with_capacity(width);
            let mut j: usize = 0;
            while j < width
                invariant
                    j <= width,
                    row@ =~= Seq::new(j as nat, |x: int| Slot::Empty(false, 0)),
                decreases width - j,
            {
                row.push(Slot::Empty(false, 0));
                j = j + 1;
            }
            board.push(row);
            i = i + 1;
        }
        let g = Game { board, phase: Phase::Setup };
        assert(g@[0] == board@[0]@);
        assert forall|x: int, y: int| in_bounds(g@, x, y) implies #[trigger] cell(g@, x, y) == Slot::Empty(false, 0) by {
            assert(g@[y] == board@[y]@);
        }
        assert forall|y: int| 0 <= y < g@.len() implies #[trigger] g@[y].len() == g@[0].len() by {
            assert(g@[y] == board@[y]@);
        }
        Some(g)
    }

    /// Number of rows.
    pub fn height(&self) -> (r: usize)
        requires
            self.wf(),
        ensures
            r as int == rows(self@),
    {
        self.board.len()
    }

    /// Number of columns.
    pub fn width(&self) -> (r: usize)
        requires
            self.wf(),
        ensures
            r as int == cols(self@),
    {
        assert(self@[0] == self.board@[0]@);
        self.board[0].len()
    }

    /// Whether `pos` lies on the board.
    pub fn contains(&self, pos: Pos) -> (r: bool)
        requires
            self.wf(),
        ensures
            r == in_bounds(self@, pos.0 as int, pos.1 as int),
    {
        let h = self.height();
        let w = self.width();
        0 <= pos.1 && (pos.1 as usize) < h && 0 <= pos.0 && (pos.0 as usize) < w
    }

    /// The cell at `pos`, which must lie on the board.
    pub fn get(&self, pos: Pos) -> (r: &Slot)
        requires
            self.wf(),
            in_bounds(self@, pos.0 as int, pos.1 as int),
        ensures
            *r == cell(self@, pos.0 as int, pos.1 as int),
    {
        assert(self@[pos.1 as int] == self.board@[pos.1 as int]@);
        &self.board[pos.1 as usize][pos.0 as usize]
    }

    /// Whether `pos` holds a mine; `false` off the board.
    pub fn is_mine(&self, pos: Pos) -> (r: bool)
        requires
            self.wf(),
        ensures
            r == mine_at(self@, pos.0 as int, pos.1 as int),
    {
        if !self.contains(pos) {
            return false;
        }
        match self.get(pos) {
            Slot::Mine(_) => true,
            Slot::Empty(_, _) => false,
        }
    }

    /// Replaces the cell at column `x`, row `y` by `s`.
    pub fn set_cell(&mut self, x: usize, y: usize, s: Slot)
        requires
            rect(old(self)@),
            in_bounds(old(self)@, x as int, y as int),
        ensures
            final(self).phase == old(self).phase,
            final(self)@ == put(old(self)@, x as int, y as int, s),
            rect(final(self)@),
    {
        assert(self@[y as int] == self.board@[y as int]@);
        self.board[y][x] = s;
        assert(self@ =~= put(old(self)@, x as int, y as int, s)) by {
            assert forall|i: int| 0 <= i < self@.len() implies self@[i] == put(old(self)@, x as int, y as int, s)[i] by {
                if i != y {
                    assert(self@[i] == old(self).board@[i]@);
                }
            }
        }
        assert(put(old(self)@, x as int, y as int, s)[0].len() == old(self)@[0].len());
        assert forall|i: int| 0 <= i < self@.len() implies #[trigger] self@[i].len() == self@[0].len() by {
            assert(old(self)@[i].len() == old(self)@[0].len());
        }
    }

    /// Whether some mine is left that nobody has stepped on. The player
    /// has won once this is `false`.
    pub fn still_mines(&self) -> (r: bool)
        requires
            self.wf(),
        ensures
            r == any_live_mine(self@),
    {
        let h = self.height();
        let w = self.width();
        let mut y: usize = 0;
        while y < h
            invariant
                self.wf(),
                h as int == rows(self@),
                w as int == cols(self@),
                y <= h,
                forall|x: int, yy: int| 0 <= yy < y ==> !#[trigger] live_mine_at(self@, x, yy),
            decreases h - y,
        {
            let mut x: usize = 0;
            while x < w
                invariant
                    self.wf(),
                    h as int == rows(self@),
                    w as int == cols(self@),
                    y < h,
                    x <= w,
                    forall|xx: int, yy: int| 0 <= yy < y ==> !#[trigger] live_mine_at(self@, xx, yy),
                    forall|xx: int| 0 <= xx < x ==> !#[trigger] live_mine_at(self@, xx, y as int),
                decreases w - x,
            {
                let p = Pos(x as i32, y as i32);
                if let Slot::Mine(false) = self.get(p) {
                    assert(live_mine_at(self@, x as int, y as int));
                    return true;
                }
                x = x + 1;
            }
            y = y + 1;
        }
        false
    }
}

} // verus!
