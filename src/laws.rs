use vstd::prelude::*;
use crate::board::{adjacent, is_unopened_cell, mine_pred, unopened_pred, Board, Outcome};
use crate::flood::{flood_closed, newly_opened, open_post};
use crate::count::lemma_count_implies;

verus! {

/// Opening a cell a second time, or any later time, reports `AlreadyOpen`
/// and leaves the board as it was.
pub proof fn lemma_open_twice(
    b0: Board,
    b1: Board,
    b2: Board,
    row: int,
    col: int,
    r1: Outcome,
    r2: Outcome,
)
    requires
        b0.wf(),
        b0.in_grid(row, col),
        open_post(b0, row, col, b1, r1),
        open_post(b1, row, col, b2, r2),
    ensures
        r2 == Outcome::AlreadyOpen,
        b2.cells@ == b1.cells@,
{
}

/// A mine adds one to the count of each of its neighbours.
pub proof fn lemma_mine_is_counted(b: Board, r: int, c: int, r2: int, c2: int)
    requires
        b.in_grid(r, c),
        b.cell(r, c).spec_is_mine(),
        adjacent(r, c, r2, c2),
    ensures
        b.neighbor_mines(r2, c2) >= 1,
{
    assert(b.mine_at(r, c) == 1);
    assert(b.mine_at(r2 - 1, c2 - 1) >= 0 && b.mine_at(r2 - 1, c2) >= 0 && b.mine_at(r2 - 1, c2 + 1)
        >= 0 && b.mine_at(r2, c2 - 1) >= 0 && b.mine_at(r2, c2 + 1) >= 0 && b.mine_at(r2 + 1, c2 - 1)
        >= 0 && b.mine_at(r2 + 1, c2) >= 0 && b.mine_at(r2 + 1, c2 + 1) >= 0);
}

/// On a board whose counts agree with its mines, opening a cell that is no
/// mine opens no mine anywhere; where the cell has no neighbouring mine,
/// every empty cell it opens has all its neighbours open afterwards, so the
/// whole empty region around it and that region's numbered border are open.
pub proof fn lemma_flood_spares_mines(before: Board, after: Board, row: int, col: int)
    requires
        before.wf(),
        before.counts_consistent(),
        before.in_grid(row, col),
        !before.cell(row, col).spec_is_mine(),
        open_post(before, row, col, after, Outcome::Continue) || open_post(
            before,
            row,
            col,
            after,
            Outcome::AlreadyOpen,
        ),
    ensures
        forall|r: int, c: int|
            before.in_grid(r, c) && #[trigger] after.cell(r, c).opened && after.cell(
                r,
                c,
            ).spec_is_mine() ==> before.cell(r, c).opened,
        before.cell(row, col).adjacent_mine_count == 0 ==> flood_closed(before, after),
{
    before.lemma_grid_indices();
    assert forall|r: int, c: int|
        before.in_grid(r, c) && #[trigger] after.cell(r, c).opened && after.cell(
            r,
            c,
        ).spec_is_mine() implies before.cell(r, c).opened by {
        if !before.cell(r, c).opened {
            assert(newly_opened(before, after, r, c));
            if !(r == row && c == col) {
                assert(before.index(r, c) != before.index(row, col));
                let (r2, c2) = choose|r2: int, c2: int|
                    adjacent(r, c, r2, c2) && #[trigger] newly_opened(before, after, r2, c2)
                        && after.cell(r2, c2).adjacent_mine_count == 0;
                lemma_mine_is_counted(before, r, c, r2, c2);
            }
        }
    }
}

/// When no mine has been opened, exactly `mine_count` cells are still closed
/// if and only if every cell that is no mine is open.
pub proof fn lemma_cleared_iff_safe_cells_open(b: Board, mine_count: nat)
    requires
        b.wf(),
        b.mine_total() == mine_count,
        forall|i: int|
            0 <= i < b.cells@.len() && #[trigger] b.cells@[i].spec_is_mine() ==> !b.cells@[i].opened,
    ensures
        (b.unopened_total() == mine_count) <==> forall|i: int|
            0 <= i < b.cells@.len() && !#[trigger] b.cells@[i].spec_is_mine() ==> b.cells@[i].opened,
{
    let s = b.cells@;
    assert forall|i: int| 0 <= i < s.len() && #[trigger] mine_pred()(s[i]) implies unopened_pred()(
        s[i],
    ) by {
        assert(s[i].spec_is_mine());
        assert(is_unopened_cell(s[i]));
    }
    lemma_count_implies(s, s, mine_pred(), unopened_pred());
    if forall|i: int| 0 <= i < s.len() && !#[trigger] s[i].spec_is_mine() ==> s[i].opened {
        assert forall|i: int| 0 <= i < s.len() && #[trigger] unopened_pred()(s[i]) implies mine_pred()(
            s[i],
        ) by {
            assert(is_unopened_cell(s[i]));
            if !s[i].spec_is_mine() {
                assert(s[i].opened);
            }
        }
        lemma_count_implies(s, s, unopened_pred(), mine_pred());
    }
    if b.unopened_total() == mine_count {
        assert forall|i: int| 0 <= i < s.len() && !#[trigger] s[i].spec_is_mine() implies s[i].opened by {
            if !s[i].opened {
                assert(unopened_pred()(s[i]));
            }
        }
    }
}

} // verus!
