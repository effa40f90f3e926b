use minesweeper::board::{Board, Cell, Outcome, MINE};

fn at(b: &Board, row: usize, col: usize) -> Cell {
    b.cells[row * b.width + col]
}

fn mine_count(b: &Board) -> usize {
    b.cells.iter().filter(|c| c.adjacent_mine_count == MINE).count()
}

fn closed_count(b: &Board) -> usize {
    b.cells.iter().filter(|c| !c.opened).count()
}

fn brute_neighbors(b: &Board, row: usize, col: usize) -> i8 {
    let mut n: i8 = 0;
    for r in row.saturating_sub(1)..=(row + 1) {
        for c in col.saturating_sub(1)..=(col + 1) {
            if r < b.height && c < b.width && !(r == row && c == col) && at(b, r, c).adjacent_mine_count == MINE {
                n += 1;
            }
        }
    }
    n
}

/// A board with mines at the given places and every other cell counted.
fn board_with_mines(width: usize, height: usize, mines: &[(usize, usize)]) -> Board {
    let mut b = Board::new(width, height);
    for &(r, c) in mines {
        b.cells[r * width + c].adjacent_mine_count = MINE;
    }
    for r in 0..height {
        for c in 0..width {
            if at(&b, r, c).adjacent_mine_count != MINE {
                let n = brute_neighbors(&b, r, c);
                b.cells[r * width + c].adjacent_mine_count = n;
            }
        }
    }
    b
}

#[test]
fn new_board_is_empty_and_closed() {
    let b = Board::new(8, 8);
    assert_eq!(b.cells.len(), 64);
    assert!(b.cells.iter().all(|c| c.adjacent_mine_count == 0 && !c.opened));
}

#[test]
fn initialize_lays_exact_mine_count_and_spares_safe_cell() {
    for round in 0..50 {
        let (sr, sc) = (round % 8, (round * 3) % 8);
        let mut b = Board::new(8, 8);
        b.initialize(8, sr, sc);
        assert_eq!(mine_count(&b), 8);
        assert_ne!(at(&b, sr, sc).adjacent_mine_count, MINE);
        assert_eq!(closed_count(&b), 64);
    }
}

#[test]
fn initialize_fills_almost_full_board() {
    let mut b = Board::new(3, 2);
    b.initialize(5, 1, 2);
    assert_eq!(mine_count(&b), 5);
    assert_eq!(at(&b, 1, 2).adjacent_mine_count, 3);
}

#[test]
fn initialize_counts_match_brute_force() {
    for _ in 0..30 {
        let mut b = Board::new(8, 8);
        b.initialize(8, 0, 0);
        for r in 0..8 {
            for c in 0..8 {
                let cell = at(&b, r, c);
                if cell.adjacent_mine_count != MINE {
                    assert_eq!(cell.adjacent_mine_count, brute_neighbors(&b, r, c));
                    assert_eq!(cell.adjacent_mine_count, b.neighbor_mine_count(r, c));
                }
            }
        }
    }
}

#[test]
fn initialize_on_non_square_board() {
    let mut b = Board::new(5, 3);
    b.initialize(4, 2, 4);
    assert_eq!(mine_count(&b), 4);
    assert_ne!(at(&b, 2, 4).adjacent_mine_count, MINE);
}

#[test]
fn neighbor_mine_count_exact_values() {
    let b = board_with_mines(4, 4, &[(0, 0), (0, 1), (2, 2)]);
    assert_eq!(b.neighbor_mine_count(1, 1), 3);
    assert_eq!(b.neighbor_mine_count(1, 0), 2);
    assert_eq!(b.neighbor_mine_count(3, 3), 1);
    assert_eq!(b.neighbor_mine_count(3, 0), 0);
    assert_eq!(b.neighbor_mine_count(0, 0), 1);
}

#[test]
fn first_open_example() {
    for _ in 0..30 {
        let mut b = Board::new(8, 8);
        b.initialize(8, 0, 0);
        let first = at(&b, 0, 0);
        assert!(first.adjacent_mine_count >= 0);
        assert_eq!(b.open(0, 0), Outcome::Continue);
        assert!(at(&b, 0, 0).opened);
        if first.adjacent_mine_count == 0 {
            assert!(at(&b, 0, 1).opened || at(&b, 1, 0).opened || at(&b, 1, 1).opened);
        }
    }
}

#[test]
fn open_twice_is_already_open_without_change() {
    let mut b = board_with_mines(4, 4, &[(3, 3)]);
    assert_eq!(b.open(1, 3), Outcome::Continue);
    let after_first = b.cells.clone();
    assert_eq!(b.open(1, 3), Outcome::AlreadyOpen);
    assert_eq!(b.cells, after_first);
    assert_eq!(b.open(1, 3), Outcome::AlreadyOpen);
    assert_eq!(b.cells, after_first);
}

#[test]
fn open_numbered_cell_reveals_only_it() {
    let mut b = board_with_mines(4, 4, &[(3, 3)]);
    assert_eq!(at(&b, 2, 2).adjacent_mine_count, 1);
    assert_eq!(b.open(2, 2), Outcome::Continue);
    assert_eq!(closed_count(&b), 15);
    assert!(at(&b, 2, 2).opened);
}

#[test]
fn open_mine_reveals_only_it() {
    let mut b = board_with_mines(4, 4, &[(0, 0), (3, 3)]);
    let before = b.cells.clone();
    assert_eq!(b.open(3, 3), Outcome::Mine);
    for i in 0..16 {
        if i == 15 {
            assert!(b.cells[i].opened);
            assert_eq!(b.cells[i].adjacent_mine_count, MINE);
        } else {
            assert_eq!(b.cells[i], before[i]);
        }
    }
}

#[test]
fn flood_fill_opens_region_and_border_only() {
    // A wall of mines down column 2 splits the board; the left part floods.
    let mines = [(0, 2), (1, 2), (2, 2), (3, 2), (4, 2)];
    let mut b = board_with_mines(5, 5, &mines);
    assert_eq!(b.open(0, 0), Outcome::Continue);
    for r in 0..5 {
        for c in 0..5 {
            assert_eq!(at(&b, r, c).opened, c < 2, "cell {} {}", r, c);
        }
    }
}

#[test]
fn flood_fill_stops_at_open_cells_and_numbers() {
    let mut b = board_with_mines(6, 1, &[(0, 5)]);
    assert_eq!(b.open(0, 0), Outcome::Continue);
    let opened: Vec<bool> = b.cells.iter().map(|c| c.opened).collect();
    assert_eq!(opened, vec![true, true, true, true, true, false]);
    assert_eq!(at(&b, 0, 4).adjacent_mine_count, 1);
}

#[test]
fn flood_fill_never_opens_mines() {
    for _ in 0..30 {
        let mut b = Board::new(8, 8);
        b.initialize(8, 4, 4);
        assert_eq!(b.open(4, 4), Outcome::Continue);
        assert!(b.cells.iter().all(|c| !(c.opened && c.adjacent_mine_count == MINE)));
        for r in 0..8 {
            for c in 0..8 {
                let cell = at(&b, r, c);
                if cell.opened && cell.adjacent_mine_count == 0 {
                    for r2 in r.saturating_sub(1)..=(r + 1).min(7) {
                        for c2 in c.saturating_sub(1)..=(c + 1).min(7) {
                            assert!(at(&b, r2, c2).opened);
                        }
                    }
                }
            }
        }
    }
}

#[test]
fn cleared_after_all_safe_cells_opened() {
    let mines: Vec<(usize, usize)> = (0..8).map(|c| (7, c)).collect();
    let mut b = board_with_mines(8, 8, &mines);
    assert!(!b.is_cleared(8));
    assert_eq!(b.open(0, 0), Outcome::Continue);
    assert_eq!(closed_count(&b), 8);
    assert!(b.is_cleared(8));
}

#[test]
fn cleared_by_opening_each_safe_cell_in_turn() {
    let mines = [(0, 0), (1, 1), (2, 2), (3, 3), (4, 4), (5, 5), (6, 6), (7, 7)];
    let mut b = board_with_mines(8, 8, &mines);
    for r in 0..8 {
        for c in 0..8 {
            if r != c {
                let out = b.open(r, c);
                assert!(out == Outcome::Continue || out == Outcome::AlreadyOpen);
            }
        }
    }
    assert!(b.is_cleared(8));
}

#[test]
fn not_cleared_with_fifty_five_opened() {
    let mines: Vec<(usize, usize)> = (0..8).map(|c| (7, c)).collect();
    let mut b = board_with_mines(8, 8, &mines);
    for i in 0..55 {
        b.cells[i].opened = true;
    }
    assert_eq!(closed_count(&b), 9);
    assert!(!b.is_cleared(8));
    b.cells[55].opened = true;
    assert!(b.is_cleared(8));
}

#[test]
fn place_mine_at_refuses_safe_and_taken_cells() {
    let mut b = Board::new(3, 3);
    assert!(!b.place_mine_at(1, 1, 1, 1));
    assert!(b.place_mine_at(0, 2, 1, 1));
    assert_eq!(at(&b, 0, 2).adjacent_mine_count, MINE);
    assert!(!b.place_mine_at(0, 2, 1, 1));
    assert_eq!(mine_count(&b), 1);
}

#[test]
fn cell_index_is_row_major() {
    let b = Board::new(5, 3);
    assert_eq!(b.cell_index(0, 0), 0);
    assert_eq!(b.cell_index(1, 0), 5);
    assert_eq!(b.cell_index(2, 4), 14);
}

#[test]
fn symbols_of_cells() {
    assert_eq!(Cell { adjacent_mine_count: 3, opened: false }.symbol(), '_');
    assert_eq!(Cell { adjacent_mine_count: MINE, opened: false }.symbol(), '_');
    assert_eq!(Cell { adjacent_mine_count: MINE, opened: true }.symbol(), 'B');
    assert_eq!(Cell { adjacent_mine_count: 3, opened: true }.symbol(), '3');
    assert_eq!(Cell { adjacent_mine_count: 0, opened: true }.symbol(), '0');
}

#[test]
fn flood_fill_leaves_separate_region_closed() {
    let mut b = board_with_mines(7, 1, &[(0, 3)]);
    assert_eq!(b.open(0, 0), Outcome::Continue);
    let opened: Vec<bool> = b.cells.iter().map(|c| c.opened).collect();
    assert_eq!(opened, vec![true, true, true, false, false, false, false]);
    assert_eq!(b.open(0, 6), Outcome::Continue);
    let opened: Vec<bool> = b.cells.iter().map(|c| c.opened).collect();
    assert_eq!(opened, vec![true, true, true, false, true, true, true]);
    assert!(b.is_cleared(1));
}
