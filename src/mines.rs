use vstd::prelude::*;
use crate::board::{mine_pred, Board, Cell, MINE};
use crate::count::{lemma_count_all, lemma_count_implies, lemma_count_none, lemma_count_same, lemma_count_update};

verus! {

/// Draws made while laying mines at random before the rest are laid in order.
/// Expected use needs a tiny fraction of this.
pub const MAX_DRAWS: u64 = 1_000_000_000;

/// Relies on rand::random: a value of the thread-local generator. Nothing is
/// known of it, so nothing is promised.
#[verifier::external_body]
fn draw() -> usize {
    rand::random::<usize>()
}

impl Board {
    /// Boards with the same mines at the same places count the same neighbours.
    pub proof fn lemma_same_mines(&self, other: Board)
        requires
            self.wf(),
            other.width == self.width,
            other.height == self.height,
            other.cells@.len() == self.cells@.len(),
            forall|i: int|
                0 <= i < self.cells@.len() ==> (#[trigger] other.cells@[i]).spec_is_mine()
                    == self.cells@[i].spec_is_mine(),
        ensures
            forall|r: int, c: int| #[trigger]
                other.neighbor_mines(r, c) == self.neighbor_mines(r, c),
    {
        self.lemma_grid_indices();
        assert forall|r: int, c: int| #[trigger] other.mine_at(r, c) == self.mine_at(r, c) by {
            if self.in_grid(r, c) {
                assert(other.cells@[self.index(r, c)].spec_is_mine()
                    == self.cells@[self.index(r, c)].spec_is_mine());
            }
        }
    }

    /// Lays a mine at (row, col) where none is yet and it is not the safe
    /// cell; says whether it did.
    pub fn place_mine_at(&mut self, row: usize, col: usize, safe_row: usize, safe_col: usize) -> (placed: bool)
        requires
            old(self).wf(),
            row < old(self).height,
            col < old(self).width,
        ensures
            final(self).wf(),
            final(self).width == old(self).width,
            final(self).height == old(self).height,
            placed == (!old(self).cell(row as int, col as int).spec_is_mine() && !(row == safe_row
                && col == safe_col)),
            placed ==> final(self).cells@ == old(self).cells@.update(
                old(self).index(row as int, col as int),
                Cell {
                    adjacent_mine_count: MINE,
                    opened: old(self).cell(row as int, col as int).opened,
                },
            ),
            !placed ==> final(self).cells@ == old(self).cells@,
    {
        let i = self.cell_index(row, col);
        let cell = self.cells[i];
        if cell.is_mine() || (row == safe_row && col == safe_col) {
            return false;
        }
        self.cells.set(i, Cell { adjacent_mine_count: MINE, opened: cell.opened });
        true
    }

    /// Lays `mine_count` mines on a board that has none, never on the safe
    /// cell. A cell is drawn at random, each coordinate reduced modulo the
    /// board's size, and taken when it holds no mine and is not the safe cell;
    /// drawing goes on until all mines are laid. So that the loop provably
    /// ends, at most `MAX_DRAWS` draws are made; should they all be spent, the
    /// mines still missing go to the first free cells in row order.
    fn place_mines(&mut self, mine_count: usize, safe_row: usize, safe_col: usize)
        requires
            old(self).wf(),
            old(self).mine_total() == 0,
            mine_count < old(self).width * old(self).height,
            safe_row < old(self).height,
            safe_col < old(self).width,
        ensures
            final(self).wf(),
            final(self).width == old(self).width,
            final(self).height == old(self).height,
            final(self).mine_total() == mine_count,
            !final(self).cell(safe_row as int, safe_col as int).spec_is_mine(),
            forall|i: int|
                0 <= i < old(self).cells@.len() ==> (#[trigger] final(self).cells@[i]).opened
                    == old(self).cells@[i].opened,
    {
        let ghost start = *self;
        let safe = self.cell_index(safe_row, safe_col);
        proof {
            lemma_count_none(start.cells@, |c: Cell| false);
            lemma_count_implies(start.cells@, start.cells@, |c: Cell| false, mine_pred());
            assert(!mine_pred()(start.cells@[safe as int]));
        }
        let mut placed: usize = 0;
        let mut draws: u64 = 0;
        while placed < mine_count && draws < MAX_DRAWS
            invariant
                self.wf(),
                self.width == start.width,
                self.height == start.height,
                self.cells@.len() == start.cells@.len(),
                safe_row < self.height,
                safe_col < self.width,
                safe == self.index(safe_row as int, safe_col as int),
                safe < self.cells@.len(),
                self.mine_total() == placed,
                placed <= mine_count,
                mine_count < self.cells@.len(),
                !self.cells@[safe as int].spec_is_mine(),
                forall|i: int|
                    0 <= i < start.cells@.len() ==> (#[trigger] self.cells@[i]).opened
                        == start.cells@[i].opened,
            decreases MAX_DRAWS - draws,
        {
            let row = draw() % self.height;
            let col = draw() % self.width;
            let ghost pre = *self;
            if self.place_mine_at(row, col, safe_row, safe_col) {
                proof {
                    let j = pre.index(row as int, col as int);
                    pre.lemma_index(row as int, col as int);
                    lemma_count_update(pre.cells@, mine_pred(), j, self.cells@[j]);
                    pre.lemma_grid_indices();
                    assert(j != safe);
                }
                placed = placed + 1;
            }
            draws = draws + 1;
        }
        let n: usize = self.cells.len();
        let mut i: usize = 0;
        while placed < mine_count && i < n
            invariant
                self.wf(),
                self.width == start.width,
                self.height == start.height,
                n == self.cells@.len(),
                n == start.cells@.len(),
                safe == self.index(safe_row as int, safe_col as int),
                safe < n,
                i <= n,
                self.mine_total() == placed,
                placed <= mine_count,
                mine_count < n,
                !self.cells@[safe as int].spec_is_mine(),
                placed < mine_count ==> forall|k: int|
                    0 <= k < i && k != safe ==> #[trigger] self.cells@[k].spec_is_mine(),
                forall|k: int|
                    0 <= k < start.cells@.len() ==> (#[trigger] self.cells@[k]).opened
                        == start.cells@[k].opened,
            decreases n - i,
        {
            let cell = self.cells[i];
            if i != safe && !cell.is_mine() {
                let ghost pre = *self;
                self.cells.set(i, Cell { adjacent_mine_count: MINE, opened: cell.opened });
                proof {
                    lemma_count_update(pre.cells@, mine_pred(), i as int, self.cells@[i as int]);
                }
                placed = placed + 1;
            }
            i = i + 1;
        }
        if placed < mine_count {
            proof {
                let s = self.cells@;
                let full = s.update(safe as int, Cell { adjacent_mine_count: MINE, opened: false });
                assert forall|k: int| 0 <= k < full.len() implies #[trigger] mine_pred()(full[k]) by {
                    if k != safe {
                        assert(s[k].spec_is_mine());
                    }
                }
                lemma_count_all(full, mine_pred());
                lemma_count_update(s, mine_pred(), safe as int, full[safe as int]);
            }
        }
    }

    /// Writes into each cell that is not a mine the number of its neighbouring mines.
    fn fill_counts(&mut self)
        requires
            old(self).wf(),
        ensures
            final(self).wf(),
            final(self).width == old(self).width,
            final(self).height == old(self).height,
            final(self).counts_consistent(),
            forall|i: int|
                0 <= i < old(self).cells@.len() ==> (#[trigger] final(self).cells@[i]).opened
                    == old(self).cells@[i].opened && final(self).cells@[i].spec_is_mine()
                    == old(self).cells@[i].spec_is_mine(),
    {
        let ghost start = *self;
        proof {
            start.lemma_grid_indices();
        }
        let mut row: usize = 0;
        let mut col: usize = 0;
        while row < self.height
            invariant
                start.wf(),
                self.wf(),
                self.width == start.width,
                self.height == start.height,
                col < self.width,
                row <= self.height,
                row == self.height ==> col == 0,
                forall|i: int|
                    0 <= i < start.cells@.len() ==> (#[trigger] self.cells@[i]).opened
                        == start.cells@[i].opened && self.cells@[i].spec_is_mine()
                        == start.cells@[i].spec_is_mine(),
                forall|r: int, c: int|
                    self.in_grid(r, c) && (r < row || (r == row && c < col))
                        && !#[trigger] self.cell(r, c).spec_is_mine() ==> self.cell(
                        r,
                        c,
                    ).adjacent_mine_count == start.neighbor_mines(r, c),
            decreases self.height - row, self.width - col,
        {
            let i = self.cell_index(row, col);
            let cell = self.cells[i];
            if !cell.is_mine() {
                proof {
                    start.lemma_same_mines(*self);
                }
                let n = self.neighbor_mine_count(row, col);
                let ghost pre = *self;
                self.cells.set(i, Cell { adjacent_mine_count: n, opened: cell.opened });
                proof {
                    start.lemma_grid_indices();
                    assert forall|r: int, c: int|
                        self.in_grid(r, c) && !(r == row && c == col) implies #[trigger] self.cell(r, c)
                        == pre.cell(r, c) by {
                        assert(start.index(r, c) != start.index(row as int, col as int));
                    }
                }
            }
            if col + 1 < self.width {
                col = col + 1;
            } else {
                col = 0;
                row = row + 1;
            }
        }
        proof {
            start.lemma_same_mines(*self);
        }
    }

    /// Lays `mine_count` mines at random on a board that has none, never on
    /// (safe_row, safe_col) (see `place_mines`), then writes into every other cell the number of
    /// mines among its neighbours.
    pub fn initialize(&mut self, mine_count: usize, safe_row: usize, safe_col: usize)
        requires
            old(self).wf(),
            old(self).mine_total() == 0,
            mine_count < old(self).width * old(self).height,
            safe_row < old(self).height,
            safe_col < old(self).width,
        ensures
            final(self).wf(),
            final(self).width == old(self).width,
            final(self).height == old(self).height,
            final(self).mine_total() == mine_count,
            !final(self).cell(safe_row as int, safe_col as int).spec_is_mine(),
            final(self).counts_consistent(),
            forall|i: int|
                0 <= i < old(self).cells@.len() ==> (#[trigger] final(self).cells@[i]).opened
                    == old(self).cells@[i].opened,
    {
        self.place_mines(mine_count, safe_row, safe_col);
        let ghost placed = *self;
        self.fill_counts();
        proof {
            lemma_count_same(placed.cells@, self.cells@, mine_pred());
            placed.lemma_index(safe_row as int, safe_col as int);
        }
    }
}

} // verus!
