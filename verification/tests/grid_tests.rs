use life_grid::grid::Grid;

/// The live cells of `g`, sorted so two grids can be compared as sets.
fn sorted_cells(g: &Grid) -> Vec<(i32, i32)> {
    let mut v = g.get_cells();
    v.sort();
    v
}

/// A grid holding exactly the given cells.
fn grid_of(cells: &[(i32, i32)]) -> Grid {
    let mut g = Grid::new();
    for &c in cells {
        g.toggle_cell(c);
    }
    g
}

/// A sorted copy of the given cells.
fn sorted(cells: &[(i32, i32)]) -> Vec<(i32, i32)> {
    let mut v = cells.to_vec();
    v.sort();
    v
}

#[test]
fn new_grid_is_empty() {
    let g = Grid::new();
    assert!(g.get_cells().is_empty());
}

#[test]
fn empty_grid_stays_empty() {
    let mut g = Grid::new();
    g.compute();
    assert!(g.get_cells().is_empty());
    g.compute();
    g.compute();
    assert!(g.get_cells().is_empty());
    g.iterative_compute(7);
    assert!(g.get_cells().is_empty());
}

#[test]
fn block_is_still_life() {
    let block = [(0, 0), (1, 0), (0, 1), (1, 1)];
    let mut g = grid_of(&block);
    g.compute();
    assert_eq!(sorted_cells(&g), sorted(&block));
    g.compute();
    assert_eq!(sorted_cells(&g), sorted(&block));
}

#[test]
fn blinker_oscillates_period_two() {
    let horizontal = [(0, 0), (1, 0), (2, 0)];
    let vertical = [(1, -1), (1, 0), (1, 1)];
    let mut g = grid_of(&horizontal);
    g.compute();
    assert_eq!(sorted_cells(&g), sorted(&vertical));
    g.compute();
    assert_eq!(sorted_cells(&g), sorted(&horizontal));
}

#[test]
fn l_tromino_births_corner() {
    let mut g = grid_of(&[(0, 0), (1, 0), (0, 1)]);
    g.compute();
    let cells = sorted_cells(&g);
    assert!(cells.contains(&(1, 1)));
    assert_eq!(cells, sorted(&[(0, 0), (1, 0), (0, 1), (1, 1)]));
}

#[test]
fn isolated_cell_dies() {
    let mut g = grid_of(&[(5, -7)]);
    g.compute();
    assert!(g.get_cells().is_empty());
}

#[test]
fn two_isolated_cells_die() {
    let mut g = grid_of(&[(0, 0), (10, 10)]);
    g.compute();
    assert!(g.get_cells().is_empty());
}

#[test]
fn iterative_compute_matches_repeated_compute() {
    let glider = [(0, 1), (1, 2), (2, 0), (2, 1), (2, 2)];
    let mut once = grid_of(&glider);
    let mut many = grid_of(&glider);
    once.iterative_compute(4);
    for _ in 0..4 {
        many.compute();
    }
    assert_eq!(sorted_cells(&once), sorted_cells(&many));
    // after four generations a glider reappears shifted by (1, 1)
    let shifted = sorted(&[(1, 2), (2, 3), (3, 1), (3, 2), (3, 3)]);
    assert_eq!(sorted_cells(&once), shifted);
}

#[test]
fn iterative_compute_zero_is_noop() {
    let blinker = [(0, 0), (1, 0), (2, 0)];
    let mut g = grid_of(&blinker);
    g.iterative_compute(0);
    assert_eq!(sorted_cells(&g), sorted(&blinker));
}

#[test]
fn iterative_compute_negative_is_noop() {
    let blinker = [(0, 0), (1, 0), (2, 0)];
    let mut g = grid_of(&blinker);
    g.iterative_compute(-3);
    assert_eq!(sorted_cells(&g), sorted(&blinker));
}

#[test]
fn toggle_twice_restores_dead_cell() {
    let mut g = grid_of(&[(0, 0), (1, 0)]);
    let before = sorted_cells(&g);
    g.toggle_cell((4, 4));
    g.toggle_cell((4, 4));
    assert_eq!(sorted_cells(&g), before);
}

#[test]
fn toggle_twice_restores_live_cell() {
    let mut g = grid_of(&[(0, 0), (1, 0)]);
    let before = sorted_cells(&g);
    g.toggle_cell((1, 0));
    g.toggle_cell((1, 0));
    assert_eq!(sorted_cells(&g), before);
}

#[test]
fn toggle_flips_liveness() {
    let mut g = Grid::new();
    g.toggle_cell((3, -2));
    assert_eq!(g.get_cells(), vec![(3, -2)]);
    g.toggle_cell((3, -2));
    assert!(g.get_cells().is_empty());
}

#[test]
fn compute_is_deterministic() {
    let seed = [(0, 1), (1, 2), (2, 0), (2, 1), (2, 2)];
    let mut a = grid_of(&seed);
    let mut b = grid_of(&seed);
    a.compute();
    b.compute();
    assert_eq!(sorted_cells(&a), sorted_cells(&b));
}

#[test]
fn clear_cells_removes_everything() {
    let mut g = grid_of(&[(0, 0), (5, 5), (-3, 9)]);
    g.clear_cells();
    assert!(g.get_cells().is_empty());
    // idempotent
    g.clear_cells();
    assert!(g.get_cells().is_empty());
}

#[test]
fn from_b_tree_set_holds_given_cells() {
    let cells = vec![(2, 3), (-1, -1), (0, 7)];
    let g = Grid::from_b_tree_set(cells.clone());
    assert_eq!(sorted_cells(&g), sorted(&cells));
}

#[test]
fn negative_coordinates_follow_the_rule() {
    let mut g = grid_of(&[(-10, -10), (-9, -10), (-8, -10)]);
    g.compute();
    assert_eq!(
        sorted_cells(&g),
        sorted(&[(-9, -11), (-9, -10), (-9, -9)])
    );
}

#[test]
fn get_cells_is_a_snapshot() {
    let mut g = grid_of(&[(0, 0), (1, 0), (2, 0)]);
    let snapshot = sorted_cells(&g);
    g.compute();
    assert_eq!(snapshot, sorted(&[(0, 0), (1, 0), (2, 0)]));
    assert_ne!(sorted_cells(&g), snapshot);
}
