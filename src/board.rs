use vstd::prelude::*;
use crate::count::{count_where, lemma_count_take_step};

verus! {

/// The `adjacent_mine_count` that marks a cell holding a mine.
pub const MINE: i8 = -1;

/// One square of the grid.
#[derive(Clone, Copy, Debug, PartialEq, Eq, Structural)]
pub struct Cell {
    /// `MINE` for a mine, else the number of mines among the neighbours.
    pub adjacent_mine_count: i8,
    /// Whether the player has revealed this cell.
    pub opened: bool,
}

impl Cell {
    pub open spec fn spec_is_mine(&self) -> bool {
        self.adjacent_mine_count == MINE
    }

    /// The character the board shows for this cell: `_` while closed, `B` for
    /// an open mine, else the digit of its count.
    pub open spec fn spec_symbol(&self) -> char {
        if !self.opened {
            '_'
        } else if self.spec_is_mine() {
            'B'
        } else {
            (48 + self.adjacent_mine_count) as char
        }
    }

    #[verifier::when_used_as_spec(spec_symbol)]
    pub fn symbol(&self) -> (ch: char)
        requires
            MINE <= self.adjacent_mine_count <= 8,
        ensures
            ch == self.spec_symbol(),
    {
        if !self.opened {
            '_'
        } else if self.is_mine() {
            'B'
        } else {
            ((48 + self.adjacent_mine_count) as u8) as char
        }
    }

    #[verifier::when_used_as_spec(spec_is_mine)]
    pub fn is_mine(&self) -> (r: bool)
        ensures
            r == self.spec_is_mine(),
    {
        self.adjacent_mine_count == MINE
    }
}

/// What opening a cell led to.
#[derive(Clone, Copy, Debug, PartialEq, Eq, Structural)]
pub enum Outcome {
    /// A safe cell was revealed: play goes on.
    Continue,
    /// The cell held a mine: the game is lost.
    Mine,
    /// The cell was open already; nothing changed.
    AlreadyOpen,
}

pub open spec fn is_mine_cell(c: Cell) -> bool {
    c.adjacent_mine_count == MINE
}

pub open spec fn is_unopened_cell(c: Cell) -> bool {
    !c.opened
}

pub open spec fn mine_pred() -> spec_fn(Cell) -> bool {
    |c: Cell| is_mine_cell(c)
}

pub open spec fn unopened_pred() -> spec_fn(Cell) -> bool {
    |c: Cell| is_unopened_cell(c)
}

/// Number of mines in a run of cells.
pub open spec fn mines_in(s: Seq<Cell>) -> nat {
    count_where(s, mine_pred())
}

/// Number of unopened cells in a run of cells.
pub open spec fn unopened_in(s: Seq<Cell>) -> nat {
    count_where(s, unopened_pred())
}

/// Two distinct positions at Chebyshev distance one.
pub open spec fn adjacent(r1: int, c1: int, r2: int, c2: int) -> bool {
    &&& !(r1 == r2 && c1 == c2)
    &&& -1 <= r1 - r2 <= 1
    &&& -1 <= c1 - c2 <= 1
}

/// A rectangular grid of cells, stored row by row.
pub struct Board {
    pub width: usize,
    pub height: usize,
    pub cells: Vec<Cell>,
}

impl Board {
    /// The grid has cells, one per position, each with a count in -1..=8.
    pub open spec fn wf(&self) -> bool {
        &&& self.width > 0
        &&& self.height > 0
        &&& self.cells@.len() == self.width * self.height
        &&& forall|i: int|
            0 <= i < self.cells@.len() ==> MINE <= #[trigger] self.cells@[i].adjacent_mine_count
                <= 8
    }

    pub open spec fn in_grid(&self, r: int, c: int) -> bool {
        0 <= r < self.height && 0 <= c < self.width
    }

    pub open spec fn index(&self, r: int, c: int) -> int {
        r * self.width + c
    }

    pub open spec fn cell(&self, r: int, c: int) -> Cell {
        self.cells@[self.index(r, c)]
    }

    /// 1 where (r, c) lies on the grid and holds a mine, else 0.
    pub open spec fn mine_at(&self, r: int, c: int) -> int {
        if self.in_grid(r, c) && self.cell(r, c).spec_is_mine() {
            1
        } else {
            0
        }
    }

    /// The number of mines among the up to eight neighbours of (r, c).
    pub open spec fn neighbor_mines(&self, r: int, c: int) -> int {
        self.mine_at(r - 1, c - 1) + self.mine_at(r - 1, c) + self.mine_at(r - 1, c + 1)
            + self.mine_at(r, c - 1) + self.mine_at(r, c + 1) + self.mine_at(r + 1, c - 1)
            + self.mine_at(r + 1, c) + self.mine_at(r + 1, c + 1)
    }

    /// Every cell that is not a mine holds the number of its neighbouring mines.
    pub open spec fn counts_consistent(&self) -> bool {
        forall|r: int, c: int|
            self.in_grid(r, c) && !#[trigger] self.cell(r, c).spec_is_mine() ==> self.cell(
                r,
                c,
            ).adjacent_mine_count == self.neighbor_mines(r, c)
    }

    pub open spec fn mine_total(&self) -> nat {
        mines_in(self.cells@)
    }

    pub open spec fn unopened_total(&self) -> nat {
        unopened_in(self.cells@)
    }

    pub proof fn lemma_index(&self, r: int, c: int)
        requires
            self.wf(),
            self.in_grid(r, c),
        ensures
            0 <= self.index(r, c) < self.cells@.len(),
    {
        let (w, h) = (self.width as int, self.height as int);
        assert(0 <= r * w + c < w * h) by (nonlinear_arith)
            requires
                0 <= r < h,
                0 <= c < w,
        ;
    }

    pub proof fn lemma_index_injective(&self, r1: int, c1: int, r2: int, c2: int)
        requires
            self.in_grid(r1, c1),
            self.in_grid(r2, c2),
            self.index(r1, c1) == self.index(r2, c2),
        ensures
            r1 == r2 && c1 == c2,
    {
        let w = self.width as int;
        assert(r1 == r2) by (nonlinear_arith)
            requires
                0 <= c1 < w,
                0 <= c2 < w,
                r1 * w + c1 == r2 * w + c2,
                0 <= r1,
                0 <= r2,
        {
            if r1 < r2 {
                assert(r1 * w + w <= r2 * w);
            } else if r2 < r1 {
                assert(r2 * w + w <= r1 * w);
            }
        }
    }

    /// Each grid position has a place in `cells`, and distinct positions distinct places.
    pub proof fn lemma_grid_indices(&self)
        requires
            self.wf(),
        ensures
            forall|r: int, c: int|
                self.in_grid(r, c) ==> 0 <= #[trigger] self.index(r, c) < self.cells@.len(),
            forall|r1: int, c1: int, r2: int, c2: int|
                self.in_grid(r1, c1) && self.in_grid(r2, c2) && !(r1 == r2 && c1 == c2)
                    ==> #[trigger] self.index(r1, c1) != #[trigger] self.index(r2, c2),
    {
        assert forall|r: int, c: int| self.in_grid(r, c) implies 0 <= #[trigger] self.index(
            r,
            c,
        ) < self.cells@.len() by {
            self.lemma_index(r, c);
        }
        assert forall|r1: int, c1: int, r2: int, c2: int|
            self.in_grid(r1, c1) && self.in_grid(r2, c2) && !(r1 == r2 && c1 == c2) implies #[trigger] self.index(
            r1,
            c1,
        ) != #[trigger] self.index(r2, c2) by {
            if self.index(r1, c1) == self.index(r2, c2) {
                self.lemma_index_injective(r1, c1, r2, c2);
            }
        }
    }

    /// The place of (row, col) in `cells`.
    pub fn cell_index(&self, row: usize, col: usize) -> (i: usize)
        requires
            self.wf(),
            row < self.height,
            col < self.width,
        ensures
            i == self.index(row as int, col as int),
            i < self.cells@.len(),
    {
        // The length of `cells` fits a usize, and so does every index below it.
        let _len: usize = self.cells.len();
        proof {
            self.lemma_index(row as int, col as int);
            assert(0 <= row * self.width <= row * self.width + col) by (nonlinear_arith)
                requires
                    row >= 0,
                    self.width >= 0,
                    col >= 0,
            ;
        }
        row * self.width + col
    }

    /// 1 where (row + dr, col + dc) lies on the grid and holds a mine, else 0.
    fn mine_at_offset(&self, row: usize, col: usize, dr: i8, dc: i8) -> (n: i8)
        requires
            self.wf(),
            row < self.height,
            col < self.width,
            -1 <= dr <= 1,
            -1 <= dc <= 1,
        ensures
            n == self.mine_at(row + dr, col + dc),
    {
        if (dr < 0 && row == 0) || (dc < 0 && col == 0) {
            return 0;
        }
        let r: usize = if dr < 0 {
            row - 1
        } else if dr > 0 {
            row + 1
        } else {
            row
        };
        let c: usize = if dc < 0 {
            col - 1
        } else if dc > 0 {
            col + 1
        } else {
            col
        };
        if r >= self.height || c >= self.width {
            return 0;
        }
        let i = self.cell_index(r, c);
        if self.cells[i].is_mine() {
            1
        } else {
            0
        }
    }

    /// The number of mines among the neighbours of (row, col).
    pub fn neighbor_mine_count(&self, row: usize, col: usize) -> (n: i8)
        requires
            self.wf(),
            row < self.height,
            col < self.width,
        ensures
            n == self.neighbor_mines(row as int, col as int),
            0 <= n <= 8,
    {
        let a = self.mine_at_offset(row, col, -1, -1);
        let b = self.mine_at_offset(row, col, -1, 0);
        let c = self.mine_at_offset(row, col, -1, 1);
        let d = self.mine_at_offset(row, col, 0, -1);
        let e = self.mine_at_offset(row, col, 0, 1);
        let f = self.mine_at_offset(row, col, 1, -1);
        let g = self.mine_at_offset(row, col, 1, 0);
        let h = self.mine_at_offset(row, col, 1, 1);
        a + b + c + d + e + f + g + h
    }

    /// An empty grid of the given size: no mines, every cell closed.
    pub fn new(width: usize, height: usize) -> (b: Board)
        requires
            width > 0,
            height > 0,
            width * height <= usize::MAX,
        ensures
            b.wf(),
            b.width == width,
            b.height == height,
            forall|i: int|
                0 <= i < b.cells@.len() ==> #[trigger] b.cells@[i] == (Cell {
                    adjacent_mine_count: 0,
                    opened: false,
                }),
    {
        let n: usize = width * height;
        let mut cells: Vec<Cell> = Vec::new();
        let mut i: usize = 0;
        while i < n
            invariant
                i <= n,
                cells@.len() == i,
                forall|k: int|
                    0 <= k < i ==> #[trigger] cells@[k] == (Cell {
                        adjacent_mine_count: 0,
                        opened: false,
                    }),
            decreases n - i,
        {
            cells.push(Cell { adjacent_mine_count: 0, opened: false });
            i = i + 1;
        }
        Board { width, height, cells }
    }

    /// Whether the game is won: exactly `mine_count` cells are still closed.
    pub fn is_cleared(&self, mine_count: usize) -> (r: bool)
        requires
            self.wf(),
        ensures
            r == (self.unopened_total() == mine_count),
    {
        let n: usize = self.cells.len();
        let mut closed: usize = 0;
        let mut i: usize = 0;
        while i < n
            invariant
                n == self.cells@.len(),
                i <= n,
                closed == unopened_in(self.cells@.take(i as int)),
                closed <= i,
            decreases n - i,
        {
            proof {
                lemma_count_take_step(self.cells@, unopened_pred(), i as int);
            }
            if !self.cells[i].opened {
                closed = closed + 1;
            }
            i = i + 1;
        }
        assert(self.cells@.take(n as int) =~= self.cells@);
        closed == mine_count
    }
}

} // verus!
