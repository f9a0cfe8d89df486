use graph_traversal::{CellSet, Grid};

fn create_grid() -> Grid {
    let mut grid = Grid::new(5);
    assert!(grid.add_row(&["W", "L", "W", "W", "W"]).is_ok());
    assert!(grid.add_row(&["W", "L", "W", "W", "W"]).is_ok());
    assert!(grid.add_row(&["W", "W", "W", "L", "W"]).is_ok());
    assert!(grid.add_row(&["W", "W", "L", "L", "W"]).is_ok());
    assert!(grid.add_row(&["L", "W", "W", "L", "L"]).is_ok());
    assert!(grid.add_row(&["L", "L", "W", "W", "W"]).is_ok());
    grid
}

#[test]
fn island_count_explore_test() {
    let grid = create_grid();
    let mut visited = CellSet::new();

    assert_eq!(grid.explore(0, 1, &mut visited), true);
    assert!(visited.contains(0, 1));

    assert_eq!(grid.explore(0, 0, &mut visited), false);
    assert!(visited.contains(0, 0));

    assert_eq!(grid.explore(grid.row_count(), 0, &mut visited), false);
    assert_eq!(grid.explore(0, grid.width(), &mut visited), false);
}

#[test]
fn island_count_test() {
    let grid = create_grid();
    assert!(grid.island_count() == 3);
}

#[test]
fn minimum_island_explore_test() {
    let grid = create_grid();
    let mut visited = CellSet::new();

    assert_eq!(grid.explore_count(0, 1, &mut visited), 2);
    assert!(visited.contains(0, 1));

    assert_eq!(grid.explore_count(0, 0, &mut visited), 0);
    assert!(visited.contains(0, 0));

    assert_eq!(grid.explore_count(grid.row_count(), 0, &mut visited), 0);
    assert_eq!(grid.explore_count(0, grid.width(), &mut visited), 0);
}

#[test]
fn minimum_island_count_test() {
    let grid = create_grid();
    assert!(grid.minimum_island_count() == 2);
}

#[test]
fn explore_marks_the_whole_island_once() {
    let grid = create_grid();
    let mut visited = CellSet::new();
    assert_eq!(grid.explore_count(4, 3, &mut visited), 5);
    assert!(visited.contains(2, 3));
    assert!(visited.contains(3, 2));
    assert!(visited.contains(4, 4));
    assert!(!visited.contains(4, 0));
    assert_eq!(grid.explore_count(3, 3, &mut visited), 0);
    assert_eq!(grid.explore(2, 3, &mut visited), false);
    assert_eq!(grid.explore(5, 1, &mut visited), true);
    assert!(visited.contains(4, 0));
}

#[test]
fn grids_without_land() {
    let empty = Grid::new(3);
    assert_eq!(empty.island_count(), 0);
    assert_eq!(empty.minimum_island_count(), 0);
    let mut water = Grid::new(2);
    assert!(water.add_row(&["W", "W"]).is_ok());
    assert!(water.add_row(&["W", "W"]).is_ok());
    assert_eq!(water.island_count(), 0);
    assert_eq!(water.minimum_island_count(), 0);
}

#[test]
fn any_label_but_water_is_land() {
    let mut grid = Grid::new(3);
    assert!(grid.add_row(&["x", "W", "L"]).is_ok());
    assert!(grid.add_row(&["W", "W", "7"]).is_ok());
    assert!(grid.add_row(&["L", "W", "W"]).is_ok());
    assert_eq!(grid.island_count(), 3);
    assert_eq!(grid.minimum_island_count(), 1);
}

#[test]
fn islands_of_equal_size() {
    let mut grid = Grid::new(4);
    assert!(grid.add_row(&["L", "L", "W", "L"]).is_ok());
    assert!(grid.add_row(&["W", "W", "W", "L"]).is_ok());
    assert!(grid.add_row(&["L", "L", "L", "W"]).is_ok());
    assert_eq!(grid.island_count(), 3);
    assert_eq!(grid.minimum_island_count(), 2);
}

#[test]
fn fill_stops_at_visited_cells() {
    let mut grid = Grid::new(3);
    assert!(grid.add_row(&["L", "L", "L"]).is_ok());
    let mut visited = CellSet::new();
    visited.insert(0, 1);
    assert_eq!(grid.explore_count(0, 0, &mut visited), 1);
    assert!(!visited.contains(0, 2));
    assert_eq!(grid.explore_count(0, 2, &mut visited), 1);
    assert_eq!(grid.explore_count(0, 1, &mut visited), 0);
}
