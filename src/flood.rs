use vstd::prelude::*;
use crate::board::{adjacent, unopened_pred, Board, Cell, Outcome};
use crate::count::{lemma_count_implies, lemma_count_update};

verus! {

/// (r, c) lies on the grid and was closed in `before` but is open in `after`.
pub open spec fn newly_opened(before: Board, after: Board, r: int, c: int) -> bool {
    &&& before.in_grid(r, c)
    &&& !before.cell(r, c).opened
    &&& after.cell(r, c).opened
}

/// Every cell with no neighbouring mine that was opened between `before` and
/// `after` has all its neighbours open in `after`.
pub open spec fn flood_closed(before: Board, after: Board) -> bool {
    forall|r: int, c: int|
        #[trigger] newly_opened(before, after, r, c) && after.cell(r, c).adjacent_mine_count == 0
            ==> forall|r2: int, c2: int|
            after.in_grid(r2, c2) && adjacent(r, c, r2, c2) ==> #[trigger] after.cell(r2, c2).opened
}

/// Every cell opened between `before` and `after`, other than (r0, c0), has a
/// neighbour with no neighbouring mine that was opened in the same stretch.
pub open spec fn flood_linked(before: Board, after: Board, r0: int, c0: int) -> bool {
    forall|r: int, c: int|
        #[trigger] newly_opened(before, after, r, c) && !(r == r0 && c == c0) ==> exists|
            r2: int,
            c2: int,
        |
            adjacent(r, c, r2, c2) && #[trigger] newly_opened(before, after, r2, c2) && after.cell(
                r2,
                c2,
            ).adjacent_mine_count == 0
}

/// `path` is a walk from neighbour to neighbour over cells closed in `b`, each
/// of which but the last has no neighbouring mine.
pub open spec fn flood_chain(b: Board, path: Seq<(int, int)>) -> bool {
    &&& path.len() > 0
    &&& forall|j: int|
        0 <= j < path.len() ==> b.in_grid(#[trigger] path[j].0, path[j].1) && !b.cell(
            path[j].0,
            path[j].1,
        ).opened
    &&& forall|j: int|
        0 <= j < path.len() - 1 ==> b.cell(#[trigger] path[j].0, path[j].1).adjacent_mine_count
            == 0 && adjacent(path[j].0, path[j].1, path[j + 1].0, path[j + 1].1)
}

/// The cells that opening (r0, c0) of `b` reveals when (r0, c0) has no
/// neighbouring mine: those reached from it through closed cells without
/// neighbouring mines, and the cells that border them.
pub open spec fn flood_reaches(b: Board, r0: int, c0: int, r: int, c: int) -> bool {
    exists|path: Seq<(int, int)>|
        #[trigger] flood_chain(b, path) && path[0] == (r0, c0) && path.last() == (r, c)
}

/// `after` holds the counts of `before`, and every cell open in `before`.
pub open spec fn grows_from(before: Board, after: Board) -> bool {
    &&& after.width == before.width
    &&& after.height == before.height
    &&& after.cells@.len() == before.cells@.len()
    &&& forall|i: int|
        0 <= i < before.cells@.len() ==> (#[trigger] after.cells@[i]).adjacent_mine_count
            == before.cells@[i].adjacent_mine_count && (before.cells@[i].opened
            ==> after.cells@[i].opened)
}

/// What opening (row, col) of `before` yields: the board `after` and `outcome`.
pub open spec fn open_post(before: Board, row: int, col: int, after: Board, outcome: Outcome) -> bool {
    let i = before.index(row, col);
    let target = before.cell(row, col);
    let revealed = Cell { adjacent_mine_count: target.adjacent_mine_count, opened: true };
    &&& grows_from(before, after)
    &&& after.cell(row, col).opened
    &&& if target.opened {
        outcome == Outcome::AlreadyOpen && after.cells@ == before.cells@
    } else if target.spec_is_mine() {
        outcome == Outcome::Mine && after.cells@ == before.cells@.update(i, revealed)
    } else if target.adjacent_mine_count != 0 {
        outcome == Outcome::Continue && after.cells@ == before.cells@.update(i, revealed)
    } else {
        &&& outcome == Outcome::Continue
        &&& forall|r: int, c: int|
            #![trigger newly_opened(before, after, r, c)]
            #![trigger flood_reaches(before, row, col, r, c)]
            before.in_grid(r, c) ==> (newly_opened(before, after, r, c) <==> flood_reaches(
                before,
                row,
                col,
                r,
                c,
            ))
        &&& flood_closed(before, after)
        &&& flood_linked(before, after, row, col)
    }
}

impl Board {
    /// A walk from a neighbour (nr, nc) of a closed cell (row, col) without
    /// neighbouring mines, over a board that grew from `self`, extends to a walk
    /// from (row, col) over `self`.
    proof fn lemma_reach_through(&self, pre: Board, row: int, col: int, path: Seq<(int, int)>)
        requires
            self.wf(),
            self.in_grid(row, col),
            !self.cell(row, col).opened,
            self.cell(row, col).adjacent_mine_count == 0,
            adjacent(row, col, path[0].0, path[0].1),
            grows_from(*self, pre),
            flood_chain(pre, path),
        ensures
            flood_chain(*self, seq![(row, col)] + path),
    {
        self.lemma_grid_indices();
        let full = seq![(row, col)] + path;
        assert forall|j: int| 0 <= j < full.len() implies self.in_grid(#[trigger] full[j].0, full[j].1)
            && !self.cell(full[j].0, full[j].1).opened by {
            if j > 0 {
                assert(full[j] == path[j - 1]);
                assert(self.cells@[self.index(path[j - 1].0, path[j - 1].1)] == self.cell(path[j - 1].0, path[j - 1].1));
            }
        }
        assert forall|j: int| 0 <= j < full.len() - 1 implies self.cell(#[trigger] full[j].0, full[j].1).adjacent_mine_count
            == 0 && adjacent(full[j].0, full[j].1, full[j + 1].0, full[j + 1].1) by {
            assert(full[j + 1] == path[j]);
            if j > 0 {
                assert(full[j] == path[j - 1]);
                assert(self.cells@[self.index(path[j - 1].0, path[j - 1].1)] == self.cell(path[j - 1].0, path[j - 1].1));
            }
        }
    }

    /// Where every empty cell opened between `self` and `after` has its
    /// neighbours open, and the start of a walk is open, the whole walk is open.
    proof fn lemma_flood_complete(&self, after: Board, path: Seq<(int, int)>, j: int)
        requires
            self.wf(),
            grows_from(*self, after),
            after.cell(path[0].0, path[0].1).opened,
            flood_closed(*self, after),
            flood_chain(*self, path),
            0 <= j < path.len(),
        ensures
            after.cell(path[j].0, path[j].1).opened,
        decreases j,
    {
        if j > 0 {
            self.lemma_grid_indices();
            self.lemma_flood_complete(after, path, j - 1);
            let (r2, c2) = path[j - 1];
            assert(self.in_grid(path[j - 1].0, path[j - 1].1));
            assert(self.cell(path[j - 1].0, path[j - 1].1).adjacent_mine_count == 0);
            assert(after.cells@[self.index(r2, c2)] == after.cell(r2, c2));
            assert(newly_opened(*self, after, r2, c2));
            assert(self.in_grid(path[j].0, path[j].1));
            assert(after.in_grid(path[j].0, path[j].1) && adjacent(r2, c2, path[j].0, path[j].1));
        }
    }

    /// One neighbour (nr, nc) of an opened empty cell (row, col) has been
    /// opened, taking `pre` to `self`: what holds of the flood so far still holds.
    proof fn lemma_open_step(
        &self,
        start: Board,
        pre: Board,
        row: int,
        col: int,
        nr: int,
        nc: int,
        res: Outcome,
    )
        requires
            start.wf(),
            start.in_grid(row, col),
            !start.cell(row, col).opened,
            start.cell(row, col).adjacent_mine_count == 0,
            pre.wf(),
            grows_from(start, pre),
            pre.cell(row, col).opened,
            pre.unopened_total() < start.unopened_total(),
            forall|r: int, c: int|
                #[trigger] newly_opened(start, pre, r, c) && !(r == row && c == col) && pre.cell(
                    r,
                    c,
                ).adjacent_mine_count == 0 ==> forall|r2: int, c2: int|
                    pre.in_grid(r2, c2) && adjacent(r, c, r2, c2) ==> #[trigger] pre.cell(
                        r2,
                        c2,
                    ).opened,
            flood_linked(start, pre, row, col),
            forall|r: int, c: int|
                #[trigger] newly_opened(start, pre, r, c) ==> flood_reaches(start, row, col, r, c),
            start.in_grid(nr, nc),
            adjacent(row, col, nr, nc),
            self.wf(),
            open_post(pre, nr, nc, *self, res),
        ensures
            grows_from(start, *self),
            self.cell(row, col).opened,
            self.cell(nr, nc).opened,
            self.unopened_total() < start.unopened_total(),
            forall|r: int, c: int|
                start.in_grid(r, c) && pre.cell(r, c).opened ==> #[trigger] self.cell(r, c).opened,
            forall|r: int, c: int|
                #[trigger] newly_opened(start, *self, r, c) && !(r == row && c == col)
                    && self.cell(r, c).adjacent_mine_count == 0 ==> forall|r2: int, c2: int|
                    self.in_grid(r2, c2) && adjacent(r, c, r2, c2) ==> #[trigger] self.cell(
                        r2,
                        c2,
                    ).opened,
            flood_linked(start, *self, row, col),
            forall|r: int, c: int|
                #[trigger] newly_opened(start, *self, r, c) ==> flood_reaches(start, row, col, r, c),
    {
        start.lemma_grid_indices();
        pre.lemma_grid_indices();
        self.lemma_grid_indices();
        lemma_count_implies(self.cells@, pre.cells@, unopened_pred(), unopened_pred());
        assert forall|r: int, c: int|
            start.in_grid(r, c) && !(r == nr && c == nc) && !(res == Outcome::Continue
                && pre.cell(nr, nc).adjacent_mine_count == 0) implies #[trigger] self.cell(r, c)
            == pre.cell(r, c) by {
            assert(pre.index(r, c) != pre.index(nr, nc));
        }
        assert forall|r: int, c: int|
            #[trigger] newly_opened(start, *self, r, c) && !(r == row && c == col)
                && self.cell(r, c).adjacent_mine_count == 0 implies forall|r2: int, c2: int|
            self.in_grid(r2, c2) && adjacent(r, c, r2, c2) ==> #[trigger] self.cell(r2, c2).opened by {
            if newly_opened(start, pre, r, c) {
                assert forall|r2: int, c2: int|
                    self.in_grid(r2, c2) && adjacent(r, c, r2, c2) implies #[trigger] self.cell(
                    r2,
                    c2,
                ).opened by {
                    assert(pre.cell(r2, c2).opened);
                }
            } else {
                assert(newly_opened(pre, *self, r, c));
            }
        }
        assert forall|r: int, c: int| #[trigger] newly_opened(start, *self, r, c) implies flood_reaches(
            start,
            row,
            col,
            r,
            c,
        ) by {
            if !newly_opened(start, pre, r, c) {
                assert(newly_opened(pre, *self, r, c));
                let path = if r == nr && c == nc {
                    let p = seq![(nr, nc)];
                    assert(flood_chain(pre, p));
                    p
                } else {
                    assert(flood_reaches(pre, nr, nc, r, c));
                    choose|p: Seq<(int, int)>|
                        #[trigger] flood_chain(pre, p) && p[0] == (nr, nc) && p.last() == (r, c)
                };
                start.lemma_reach_through(pre, row, col, path);
                let full = seq![(row, col)] + path;
                assert(full[0] == (row, col) && full.last() == (r, c));
                assert(flood_chain(start, full));
            }
        }
        assert forall|r: int, c: int|
            #[trigger] newly_opened(start, *self, r, c) && !(r == row && c == col) implies exists|
            r2: int,
            c2: int,
        |
            adjacent(r, c, r2, c2) && #[trigger] newly_opened(start, *self, r2, c2) && self.cell(
                r2,
                c2,
            ).adjacent_mine_count == 0 by {
            if newly_opened(start, pre, r, c) {
                let (r2, c2) = choose|r2: int, c2: int|
                    adjacent(r, c, r2, c2) && #[trigger] newly_opened(start, pre, r2, c2)
                        && pre.cell(r2, c2).adjacent_mine_count == 0;
                assert(adjacent(r, c, r2, c2) && newly_opened(start, *self, r2, c2)
                    && self.cell(r2, c2).adjacent_mine_count == 0);
            } else if r == nr && c == nc {
                assert(adjacent(r, c, row, col) && newly_opened(start, *self, row, col)
                    && self.cell(row, col).adjacent_mine_count == 0);
            } else {
                assert(newly_opened(pre, *self, r, c));
                let (r2, c2) = choose|r2: int, c2: int|
                    adjacent(r, c, r2, c2) && #[trigger] newly_opened(pre, *self, r2, c2)
                        && self.cell(r2, c2).adjacent_mine_count == 0;
                assert(adjacent(r, c, r2, c2) && newly_opened(start, *self, r2, c2)
                    && self.cell(r2, c2).adjacent_mine_count == 0);
            }
        }
    }

    /// Reveals (row, col). A closed cell is opened; one with no neighbouring
    /// mine opens each neighbour in turn, so that a region without mines
    /// spreads open up to its numbered border. An open cell is left as it is.
    pub fn open(&mut self, row: usize, col: usize) -> (r: Outcome)
        requires
            old(self).wf(),
            row < old(self).height,
            col < old(self).width,
        ensures
            final(self).wf(),
            open_post(*old(self), row as int, col as int, *final(self), r),
        decreases old(self).unopened_total(),
    {
        let i = self.cell_index(row, col);
        let target = self.cells[i];
        if target.opened {
            return Outcome::AlreadyOpen;
        }
        let ghost start = *self;
        self.cells.set(i, Cell { adjacent_mine_count: target.adjacent_mine_count, opened: true });
        proof {
            lemma_count_update(start.cells@, unopened_pred(), i as int, self.cells@[i as int]);
            start.lemma_grid_indices();
        }
        if target.is_mine() {
            return Outcome::Mine;
        }
        if target.adjacent_mine_count != 0 {
            return Outcome::Continue;
        }
        proof {
            let p = seq![(row as int, col as int)];
            assert(flood_chain(start, p) && p[0] == (row as int, col as int) && p.last() == (
                row as int,
                col as int,
            ));
        }
        let mut k: usize = 0;
        while k < 9
            invariant
                start == *old(self),
                start.wf(),
                start.in_grid(row as int, col as int),
                start.cell(row as int, col as int) == target,
                !target.opened,
                target.adjacent_mine_count == 0,
                self.wf(),
                grows_from(start, *self),
                self.cell(row as int, col as int).opened,
                self.unopened_total() < start.unopened_total(),
                k <= 9,
                forall|r2: int, c2: int|
                    start.in_grid(r2, c2) && adjacent(row as int, col as int, r2, c2) && (r2 - row
                        + 1) * 3 + (c2 - col + 1) < k ==> #[trigger] self.cell(r2, c2).opened,
                forall|r: int, c: int|
                    #[trigger] newly_opened(start, *self, r, c) && !(r == row && c == col)
                        && self.cell(r, c).adjacent_mine_count == 0 ==> forall|r2: int, c2: int|
                        self.in_grid(r2, c2) && adjacent(r, c, r2, c2)
                            ==> #[trigger] self.cell(r2, c2).opened,
                flood_linked(start, *self, row as int, col as int),
                forall|r: int, c: int|
                    #[trigger] newly_opened(start, *self, r, c) ==> flood_reaches(
                        start,
                        row as int,
                        col as int,
                        r,
                        c,
                    ),
            decreases 9 - k,
        {
            let dr: usize = k / 3;
            let dc: usize = k % 3;
            let row_ok = if dr == 0 {
                row > 0
            } else {
                dr == 1 || row + 1 < self.height
            };
            let col_ok = if dc == 0 {
                col > 0
            } else {
                dc == 1 || col + 1 < self.width
            };
            if k != 4 && row_ok && col_ok {
                let nr: usize = row + dr - 1;
                let nc: usize = col + dc - 1;
                let ghost pre = *self;
                let res = self.open(nr, nc);
                proof {
                    self.lemma_open_step(start, pre, row as int, col as int, nr as int, nc as int, res);
                    assert(k == (nr - row + 1) * 3 + (nc - col + 1));
                }
            }
            k = k + 1;
        }
        proof {
            assert forall|r: int, c: int|
                start.in_grid(r, c) && #[trigger] flood_reaches(start, row as int, col as int, r, c)
                implies newly_opened(start, *self, r, c) by {
                let path = choose|p: Seq<(int, int)>|
                    #[trigger] flood_chain(start, p) && p[0] == (row as int, col as int) && p.last() == (r, c);
                start.lemma_flood_complete(*self, path, path.len() - 1);
            }
        }
        Outcome::Continue
    }
}

} // verus!
