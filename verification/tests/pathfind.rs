use gamerobotfactory::cells::{CellId, CellSet};
use gamerobotfactory::grid::Grid;
use gamerobotfactory::pathfind::find_path;

#[test]
fn finds_straight_path_on_empty_grid() {
    let grid = Grid::new(5, 5);
    let path = find_path(&grid, (0, 0), (3, 0), &CellSet::new()).unwrap();
    assert_eq!(path, vec![(1, 0), (2, 0), (3, 0)]);
}

#[test]
fn returns_empty_path_when_already_at_goal() {
    let grid = Grid::new(5, 5);
    let path = find_path(&grid, (2, 2), (2, 2), &CellSet::new()).unwrap();
    assert_eq!(path, Vec::<CellId>::new());
}

#[test]
fn returns_none_when_fully_walled_off() {
    let mut grid = Grid::new(3, 3);
    grid.add_wall((1, 0));
    grid.add_wall((1, 1));
    grid.add_wall((1, 2));
    let path = find_path(&grid, (0, 0), (2, 0), &CellSet::new());
    assert_eq!(path, None);
}

#[test]
fn routes_around_partial_wall() {
    let mut grid = Grid::new(3, 3);
    grid.add_wall((1, 0));
    grid.add_wall((1, 1));
    let path = find_path(&grid, (0, 0), (2, 0), &CellSet::new()).unwrap();
    assert!(!path.contains(&(1, 0)));
    assert!(!path.contains(&(1, 1)));
}

#[test]
fn treats_blocked_cells_as_obstacles() {
    let grid = Grid::new(3, 1);
    let mut blocked = CellSet::new();
    blocked.insert((1, 0));
    let path = find_path(&grid, (0, 0), (2, 0), &blocked);
    assert_eq!(path, None);
}

#[test]
fn goal_cell_is_reachable_even_if_blocked() {
    let grid = Grid::new(3, 1);
    let mut blocked = CellSet::new();
    blocked.insert((2, 0)); // the goal itself is occupied
    let path = find_path(&grid, (0, 0), (2, 0), &blocked).unwrap();
    assert_eq!(path, vec![(1, 0), (2, 0)]);
}

fn is_step(a: CellId, b: CellId) -> bool {
    (a.0 - b.0).abs() + (a.1 - b.1).abs() == 1
}

#[test]
fn path_around_a_wall_is_shortest_and_made_of_single_steps() {
    let mut grid = Grid::new(3, 3);
    grid.add_wall((1, 0));
    grid.add_wall((1, 1));
    let path = find_path(&grid, (0, 0), (2, 0), &CellSet::new()).unwrap();
    // Around the wall: up to row 2, across, and back down.
    assert_eq!(path.len(), 6);
    assert_eq!(*path.last().unwrap(), (2, 0));
    let mut prev = (0, 0);
    for &cell in &path {
        assert!(grid.is_walkable(cell));
        assert!(is_step(prev, cell));
        prev = cell;
    }
}

#[test]
fn path_avoids_blocked_cells_other_than_the_goal() {
    let grid = Grid::new(4, 3);
    let mut blocked = CellSet::new();
    blocked.insert((1, 0));
    blocked.insert((2, 1));
    blocked.insert((3, 0));
    let path = find_path(&grid, (0, 0), (3, 0), &blocked).unwrap();
    assert_eq!(*path.last().unwrap(), (3, 0));
    for &cell in &path[..path.len() - 1] {
        assert!(!blocked.contains(cell));
    }
    assert_eq!(path.len(), 7);
}

#[test]
fn unwalkable_goal_is_unreachable() {
    let mut grid = Grid::new(3, 1);
    grid.add_wall((2, 0));
    assert_eq!(find_path(&grid, (0, 0), (2, 0), &CellSet::new()), None);
    assert_eq!(find_path(&grid, (0, 0), (5, 0), &CellSet::new()), None);
}

#[test]
fn a_blocked_start_does_not_stop_the_search() {
    let grid = Grid::new(3, 1);
    let mut blocked = CellSet::new();
    blocked.insert((0, 0));
    assert_eq!(find_path(&grid, (0, 0), (2, 0), &blocked), Some(vec![(1, 0), (2, 0)]));
}

#[test]
fn ties_between_shortest_paths_take_the_first_direction() {
    let grid = Grid::new(3, 3);
    let path = find_path(&grid, (1, 1), (0, 0), &CellSet::new()).unwrap();
    assert_eq!(path, vec![(0, 1), (0, 0)]);
    let path = find_path(&grid, (0, 0), (2, 2), &CellSet::new()).unwrap();
    assert_eq!(path, vec![(1, 0), (2, 0), (2, 1), (2, 2)]);
}
