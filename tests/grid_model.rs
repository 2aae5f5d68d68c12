use astar_grid::grid::Grid;
use astar_grid::types::{CellType, PathError, PlacementMode};

fn roles(g: &Grid) -> Vec<Vec<CellType>> {
    g.cells.iter().map(|row| row.iter().map(|c| c.cell_type).collect()).collect()
}

#[test]
fn new_grid_is_empty() {
    let g = Grid::new(3, 4);
    assert_eq!(g.height, 3);
    assert_eq!(g.width, 4);
    assert!(roles(&g).iter().all(|r| r.len() == 4 && r.iter().all(|t| *t == CellType::Empty)));
}

#[test]
fn wall_toggled_twice_is_empty_again() {
    let mut g = Grid::new(5, 5);
    assert_eq!(g.set_role((1, 2), PlacementMode::Wall), Ok(()));
    assert_eq!(g.role((1, 2)), CellType::Wall);
    assert_eq!(g.set_role((1, 2), PlacementMode::Wall), Ok(()));
    assert_eq!(g.role((1, 2)), CellType::Empty);
    assert_eq!(roles(&g), roles(&Grid::new(5, 5)));
}

#[test]
fn wall_on_start_or_goal_is_no_op() {
    let mut g = Grid::new(4, 4);
    g.set_role((0, 0), PlacementMode::Start).unwrap();
    g.set_role((3, 3), PlacementMode::Goal).unwrap();
    let before = roles(&g);
    g.set_role((0, 0), PlacementMode::Wall).unwrap();
    g.set_role((3, 3), PlacementMode::Wall).unwrap();
    assert_eq!(roles(&g), before);
    assert_eq!(g.role((0, 0)), CellType::Start);
    assert_eq!(g.role((3, 3)), CellType::Goal);
}

#[test]
fn start_placement_moves_the_start() {
    let mut g = Grid::new(4, 4);
    g.set_role((0, 0), PlacementMode::Start).unwrap();
    g.set_role((2, 1), PlacementMode::Start).unwrap();
    assert_eq!(g.role((0, 0)), CellType::Empty);
    assert_eq!(g.role((2, 1)), CellType::Start);
    let count = roles(&g).iter().flatten().filter(|t| **t == CellType::Start).count();
    assert_eq!(count, 1);
}

#[test]
fn start_never_overwrites_a_wall() {
    let mut g = Grid::new(4, 4);
    g.set_role((0, 0), PlacementMode::Start).unwrap();
    g.set_role((1, 1), PlacementMode::Wall).unwrap();
    let before = roles(&g);
    assert_eq!(g.set_role((1, 1), PlacementMode::Start), Ok(()));
    assert_eq!(roles(&g), before);
}

#[test]
fn goal_placed_on_start_replaces_it() {
    let mut g = Grid::new(3, 3);
    g.set_role((1, 1), PlacementMode::Start).unwrap();
    g.set_role((1, 1), PlacementMode::Goal).unwrap();
    assert_eq!(g.role((1, 1)), CellType::Goal);
}

#[test]
fn out_of_bounds_placement_is_refused() {
    let mut g = Grid::new(3, 3);
    assert_eq!(g.set_role((3, 0), PlacementMode::Wall), Err(PathError::OutOfBounds));
    assert_eq!(g.set_role((0, 7), PlacementMode::Start), Err(PathError::OutOfBounds));
    assert_eq!(roles(&g), roles(&Grid::new(3, 3)));
}

#[test]
fn reset_clears_marks_only_and_is_idempotent() {
    let mut g = Grid::new(3, 3);
    g.set_role((0, 0), PlacementMode::Start).unwrap();
    g.set_role((2, 2), PlacementMode::Goal).unwrap();
    g.set_role((1, 1), PlacementMode::Wall).unwrap();
    g.cells[0][1].cell_type = CellType::Visited;
    g.cells[1][0].cell_type = CellType::Path;
    g.reset_search_marks();
    let once = roles(&g);
    assert_eq!(once[0][1], CellType::Empty);
    assert_eq!(once[1][0], CellType::Empty);
    assert_eq!(once[0][0], CellType::Start);
    assert_eq!(once[2][2], CellType::Goal);
    assert_eq!(once[1][1], CellType::Wall);
    g.reset_search_marks();
    assert_eq!(roles(&g), once);
}

#[test]
fn neighbours_in_fixed_order_skip_walls_and_edges() {
    let mut g = Grid::new(3, 3);
    assert_eq!(g.neighbors4((1, 1)), vec![(1, 2), (1, 0), (2, 1), (0, 1)]);
    assert_eq!(g.neighbors4((0, 0)), vec![(0, 1), (1, 0)]);
    g.set_role((1, 0), PlacementMode::Wall).unwrap();
    assert_eq!(g.neighbors4((1, 1)), vec![(1, 2), (2, 1), (0, 1)]);
    assert_eq!(g.neighbors4((2, 2)), vec![(2, 1), (1, 2)]);
}

#[test]
fn in_bounds_checks_both_coordinates() {
    let g = Grid::new(2, 5);
    assert!(g.in_bounds((1, 4)));
    assert!(!g.in_bounds((2, 0)));
    assert!(!g.in_bounds((0, 5)));
}
