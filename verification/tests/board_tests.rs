use gameoflife::board::Board;

#[test]
fn test_iter() {
    // configure the board with some known state
    let mut b = Board::new(5, 5);
    for (y, row) in b.grid.iter_mut().enumerate() {
        for (x, cell) in row.iter_mut().enumerate() {
            if x == y {
                cell.is_alive = true;
            } else {
                cell.is_alive = false;
            }
        }
    }

    // check to make sure that state matches in the iterator
    for ((x, y), alive) in b.iter_cells() {
        if x == y {
            assert_eq!(alive, true);
        } else {
            assert_eq!(alive, false);
        }
    }
}

#[test]
fn new_board_is_dead() {
    let b = Board::new(7, 4);
    assert_eq!(b.rows, 7);
    assert_eq!(b.cols, 4);
    assert_eq!(b.get_num_alive_cells(), 0);
    assert_eq!(b.iter_cells().len(), 28);
}

#[test]
fn clear_leaves_no_alive_cells() {
    // for several board sizes, seeding cells and clearing always gives zero
    for (rows, cols) in [(1, 1), (3, 5), (6, 6), (2, 9)] {
        let mut b = Board::new(rows, cols);
        for r in 0..rows {
            for c in 0..cols {
                if (r + 2 * c) % 3 == 0 {
                    b.set_alive(r, c, true);
                }
            }
        }
        assert!(b.get_num_alive_cells() > 0);
        b.clear();
        assert_eq!(b.get_num_alive_cells(), 0);
    }
}

#[test]
fn blinker_oscillates() {
    // a horizontal line of three alive cells becomes a vertical line
    let mut b = Board::new(5, 5);
    b.set_alive(2, 1, true);
    b.set_alive(2, 2, true);
    b.set_alive(2, 3, true);
    b.update();
    let mut alive: Vec<(usize, usize)> = Vec::new();
    for ((r, c), is_alive) in b.iter_cells() {
        if is_alive {
            alive.push((r, c));
        }
    }
    assert_eq!(alive, vec![(1, 2), (2, 2), (3, 2)]);
    // and oscillates back
    b.update();
    let mut alive: Vec<(usize, usize)> = Vec::new();
    for ((r, c), is_alive) in b.iter_cells() {
        if is_alive {
            alive.push((r, c));
        }
    }
    assert_eq!(alive, vec![(2, 1), (2, 2), (2, 3)]);
}

#[test]
fn corner_cells_count_no_outside_neighbors() {
    // a 2x2 block of alive cells: every cell is a corner with exactly 3
    // neighbors, all alive, so the block is a still life
    let mut b = Board::new(2, 2);
    b.set_alive(0, 0, true);
    b.set_alive(0, 1, true);
    b.set_alive(1, 0, true);
    b.set_alive(1, 1, true);
    b.update();
    assert_eq!(b.get_num_alive_cells(), 4);
    for ((_, _), alive) in b.iter_cells() {
        assert!(alive);
    }
}

#[test]
fn lone_cell_dies() {
    let mut b = Board::new(3, 3);
    b.set_alive(1, 1, true);
    assert_eq!(b.get_num_alive_cells(), 1);
    b.update();
    assert_eq!(b.get_num_alive_cells(), 0);
}

#[test]
fn birth_on_exactly_three_neighbors() {
    // an L of three cells around the corner cell (0,0): the corner is born,
    // and no out-of-bounds neighbor is ever counted
    let mut b = Board::new(3, 3);
    b.set_alive(0, 1, true);
    b.set_alive(1, 0, true);
    b.set_alive(1, 1, true);
    b.update();
    let mut alive: Vec<(usize, usize)> = Vec::new();
    for ((r, c), is_alive) in b.iter_cells() {
        if is_alive {
            alive.push((r, c));
        }
    }
    assert_eq!(alive, vec![(0, 0), (0, 1), (1, 0), (1, 1)]);
}
