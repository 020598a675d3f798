use gamerobotfactory::grid::Grid;

#[test]
fn walkable_cell_in_bounds_with_no_wall() {
    let grid = Grid::new(5, 5);
    assert!(grid.is_walkable((2, 2)));
}

#[test]
fn out_of_bounds_cell_is_not_walkable() {
    let grid = Grid::new(5, 5);
    assert!(!grid.is_walkable((5, 0)));
    assert!(!grid.is_walkable((-1, 0)));
}

#[test]
fn wall_cell_is_not_walkable() {
    let mut grid = Grid::new(5, 5);
    grid.add_wall((2, 2));
    assert!(!grid.is_walkable((2, 2)));
}

#[test]
fn neighbors_excludes_walls_and_out_of_bounds() {
    let mut grid = Grid::new(3, 3);
    grid.add_wall((1, 0));
    let mut ns = grid.neighbors((0, 0));
    ns.sort();
    assert_eq!(ns, vec![(0, 1)]);
}

#[test]
fn neighbors_come_in_plus_x_minus_x_plus_y_minus_y_order() {
    let grid = Grid::new(3, 3);
    assert_eq!(grid.neighbors((1, 1)), vec![(2, 1), (0, 1), (1, 2), (1, 0)]);
}

#[test]
fn in_bounds_and_is_wall_report_the_grid() {
    let mut grid = Grid::new(4, 2);
    assert!(grid.in_bounds((3, 1)));
    assert!(!grid.in_bounds((4, 1)));
    assert!(!grid.in_bounds((0, 2)));
    assert!(!grid.is_wall((1, 1)));
    grid.add_wall((1, 1));
    assert!(grid.is_wall((1, 1)));
    assert!(grid.in_bounds((1, 1)));
}

#[test]
fn neighbors_at_the_edge_of_the_i32_range_do_not_overflow() {
    let grid = Grid::new(i32::MAX, 1);
    let ns = grid.neighbors((i32::MAX - 1, 0));
    assert_eq!(ns, vec![(i32::MAX - 2, 0)]);
}
