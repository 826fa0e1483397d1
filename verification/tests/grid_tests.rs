use percolation::grid::Grid;

#[test]
fn with_1x1_unblocked_percolates() {
    let mut grid = Grid::new(1);
    grid.unblock_box(0, 0);
    assert_eq!(grid.percolates(), true);
}

#[test]
fn with_1x1_blocked_doesnt_percolate() {
    let mut grid = Grid::new(1);
    assert_eq!(grid.percolates(), false);
}

#[test]
fn with_2x2_blocked_doesnt_percolate() {
    let mut grid = Grid::new(2);
    grid.unblock_box(0, 0);
    grid.unblock_box(0, 1);
    assert_eq!(grid.percolates(), false);
}

#[test]
fn with_2x2_unblocked_percolate() {
    let mut grid = Grid::new(2);
    grid.unblock_box(0, 0);
    grid.unblock_box(1, 0);
    assert_eq!(grid.percolates(), true);
}

#[test]
fn with_2x2_diagonal_doesnt_percolate() {
    let mut grid = Grid::new(2);
    grid.unblock_box(0, 0);
    grid.unblock_box(1, 1);
    assert_eq!(grid.percolates(), false);
}

#[test]
fn is_open_reports_opened_sites() {
    let mut grid = Grid::new(3);
    assert_eq!(grid.is_open(1, 1), false);
    grid.unblock_box(1, 1);
    assert_eq!(grid.is_open(1, 1), true);
    assert_eq!(grid.is_open(0, 1), false);
}

#[test]
fn opening_twice_changes_nothing() {
    let mut grid = Grid::new(2);
    grid.unblock_box(0, 0);
    grid.unblock_box(0, 0);
    assert_eq!(grid.is_open(0, 0), true);
    assert_eq!(grid.percolates(), false);
    grid.unblock_box(1, 0);
    grid.unblock_box(1, 0);
    assert_eq!(grid.percolates(), true);
}

#[test]
fn percolation_ignores_opening_order() {
    let sites = [(0usize, 1usize), (1, 1), (2, 1), (2, 2), (0, 0)];
    let mut forward = Grid::new(3);
    for (r, c) in sites.iter() {
        forward.unblock_box(*r, *c);
    }
    let mut backward = Grid::new(3);
    for (r, c) in sites.iter().rev() {
        backward.unblock_box(*r, *c);
    }
    assert_eq!(forward.percolates(), backward.percolates());
    assert_eq!(forward.percolates(), true);
}

#[test]
fn blocked_row_stops_percolation_in_any_order() {
    let sites = [(0usize, 0usize), (0, 1), (0, 2), (2, 0), (2, 1), (2, 2)];
    let mut forward = Grid::new(3);
    for (r, c) in sites.iter() {
        forward.unblock_box(*r, *c);
    }
    let mut backward = Grid::new(3);
    for (r, c) in sites.iter().rev() {
        backward.unblock_box(*r, *c);
    }
    assert_eq!(forward.percolates(), false);
    assert_eq!(backward.percolates(), false);
}

#[test]
fn winding_path_percolates() {
    let mut grid = Grid::new(3);
    grid.unblock_box(0, 0);
    grid.unblock_box(1, 0);
    grid.unblock_box(1, 1);
    grid.unblock_box(1, 2);
    assert_eq!(grid.percolates(), false);
    grid.unblock_box(2, 2);
    assert_eq!(grid.percolates(), true);
}
