use lib::astar_path::{Cell, Grid};

#[test]
fn new_grid_is_all_free() {
    let grid = Grid::new(4, 3);
    assert_eq!(grid.width(), 4);
    assert_eq!(grid.height(), 3);
    for y in 0..3 {
        for x in 0..4 {
            assert_eq!(grid.get(x, y), Cell::Free);
        }
    }
}

#[test]
fn set_then_get_reads_the_written_cell() {
    let mut grid = Grid::new(5, 5);
    grid.set(2, 3, Cell::Blocked);
    assert_eq!(grid.get(2, 3), Cell::Blocked);
    assert_eq!(grid.get(3, 2), Cell::Free);
    assert_eq!(grid.get(2, 2), Cell::Free);
    grid.set(2, 3, Cell::Free);
    assert_eq!(grid.get(2, 3), Cell::Free);
}

#[test]
fn set_outside_the_grid_is_ignored() {
    let mut grid = Grid::new(3, 3);
    grid.set(3, 0, Cell::Blocked);
    grid.set(0, 3, Cell::Blocked);
    for y in 0..3 {
        for x in 0..3 {
            assert_eq!(grid.get(x, y), Cell::Free);
        }
    }
}

#[test]
fn get_reads_by_row_major_index() {
    // (3, 0) is past the end of row 0 of a 3-wide grid: it is cell (0, 1).
    let mut grid = Grid::new(3, 3);
    grid.set(0, 1, Cell::Blocked);
    assert_eq!(grid.get(3, 0), Cell::Blocked);
}

#[test]
fn neighbors4_order_and_bounds() {
    let grid = Grid::new(3, 3);
    assert_eq!(grid.neighbors4(1, 1), vec![(0, 1), (2, 1), (1, 0), (1, 2)]);
    assert_eq!(grid.neighbors4(0, 0), vec![(1, 0), (0, 1)]);
    assert_eq!(grid.neighbors4(2, 2), vec![(1, 2), (2, 1)]);
}

#[test]
fn neighbors4_skips_blocked_cells() {
    let mut grid = Grid::new(3, 3);
    grid.set(0, 1, Cell::Blocked);
    grid.set(1, 2, Cell::Blocked);
    assert_eq!(grid.neighbors4(1, 1), vec![(2, 1), (1, 0)]);
}

#[test]
fn neighbors8_appends_diagonals() {
    let grid = Grid::new(3, 3);
    assert_eq!(
        grid.neighbors8(1, 1),
        vec![(0, 1), (2, 1), (1, 0), (1, 2), (0, 0), (2, 0), (0, 2), (2, 2)]
    );
    assert_eq!(grid.neighbors8(0, 0), vec![(1, 0), (0, 1), (1, 1)]);
}

#[test]
fn neighbors8_skips_blocked_diagonals() {
    let mut grid = Grid::new(3, 3);
    grid.set(2, 0, Cell::Blocked);
    grid.set(0, 2, Cell::Blocked);
    assert_eq!(
        grid.neighbors8(1, 1),
        vec![(0, 1), (2, 1), (1, 0), (1, 2), (0, 0), (2, 2)]
    );
}

#[test]
fn neighbors4_of_single_cell_grid_is_empty() {
    let grid = Grid::new(1, 1);
    assert!(grid.neighbors4(0, 0).is_empty());
    assert!(grid.neighbors8(0, 0).is_empty());
}

#[test]
fn clamp_to_grid_limits_coordinates() {
    let grid = Grid::new(10, 5);
    assert_eq!(grid.clamp_to_grid(3, 2), (3, 2));
    assert_eq!(grid.clamp_to_grid(9, 4), (9, 4));
    assert_eq!(grid.clamp_to_grid(10, 5), (9, 4));
    assert_eq!(grid.clamp_to_grid(100, 0), (9, 0));
}
