use astar_grid::astar::{heuristic, run_search, Search, SearchPhase, StepResult};
use astar_grid::grid::Grid;
use astar_grid::types::{CellType, PlacementMode};
use std::collections::VecDeque;

fn grid_with_walls(h: usize, w: usize, walls: &[(usize, usize)]) -> Grid {
    let mut g = Grid::new(h, w);
    for &p in walls {
        g.set_role(p, PlacementMode::Wall).unwrap();
    }
    g
}

fn adjacent(a: (usize, usize), b: (usize, usize)) -> bool {
    a.0.abs_diff(b.0) + a.1.abs_diff(b.1) == 1
}

fn count(g: &Grid, t: CellType) -> usize {
    g.cells.iter().flatten().filter(|c| c.cell_type == t).count()
}

/// Runs a search to its end, returning the path cells in the order marked and whether a path was found.
fn run_steps(g: &mut Grid, start: (usize, usize), goal: (usize, usize)) -> (Vec<(usize, usize)>, usize, bool) {
    let mut s = Search::new(g, start, goal);
    let mut path = Vec::new();
    let mut expanded = 0;
    loop {
        match s.step(g) {
            StepResult::Expanded(_) => expanded += 1,
            StepResult::PathCell(p) => path.push(p),
            StepResult::Found => return (path, expanded, true),
            StepResult::NotFound => return (path, expanded, false),
        }
    }
}

fn bfs(g: &Grid, start: (usize, usize), goal: (usize, usize)) -> Option<usize> {
    let mut dist = vec![vec![usize::MAX; g.width]; g.height];
    let mut q = VecDeque::new();
    dist[start.0][start.1] = 0;
    q.push_back(start);
    while let Some(p) = q.pop_front() {
        for n in g.neighbors4(p) {
            if dist[n.0][n.1] == usize::MAX {
                dist[n.0][n.1] = dist[p.0][p.1] + 1;
                q.push_back(n);
            }
        }
    }
    let d = dist[goal.0][goal.1];
    if d == usize::MAX { None } else { Some(d) }
}

#[test]
fn heuristic_is_manhattan_distance() {
    assert_eq!(heuristic((2, 0), (9, 9)), 16);
    assert_eq!(heuristic((9, 9), (2, 0)), 16);
    assert_eq!(heuristic((3, 3), (3, 3)), 0);
    assert_eq!(heuristic((0, 5), (4, 1)), 8);
}

#[test]
fn ten_by_ten_scenario_finds_path_of_sixteen() {
    let mut g = grid_with_walls(10, 10, &[(2, 2), (2, 3), (1, 2)]);
    g.set_role((2, 0), PlacementMode::Start).unwrap();
    g.set_role((9, 9), PlacementMode::Goal).unwrap();
    let (path, _, found) = run_steps(&mut g, (2, 0), (9, 9));
    assert!(found);
    // 16 moves pass through 15 intermediate cells.
    assert_eq!(path.len(), 15);
    assert!(adjacent(path[0], (9, 9)));
    for w in path.windows(2) {
        assert!(adjacent(w[0], w[1]));
    }
    assert!(adjacent(*path.last().unwrap(), (2, 0)));
    for p in &path {
        assert_eq!(g.role(*p), CellType::Path);
    }
    assert_eq!(count(&g, CellType::Path), 15);
    assert_eq!(g.role((2, 0)), CellType::Start);
    assert_eq!(g.role((9, 9)), CellType::Goal);
    assert_eq!(count(&g, CellType::Wall), 3);
}

#[test]
fn path_length_matches_breadth_first_distance() {
    let cases: Vec<(usize, usize, Vec<(usize, usize)>, (usize, usize), (usize, usize))> = vec![
        (5, 5, vec![(1, 1), (1, 2), (1, 3), (3, 1), (3, 2), (3, 3)], (0, 0), (4, 4)),
        (6, 4, vec![(1, 0), (1, 1), (1, 2), (3, 1), (3, 2), (3, 3)], (0, 0), (5, 0)),
        (4, 7, vec![(0, 3), (1, 3), (2, 3)], (0, 0), (0, 6)),
        (3, 3, vec![], (1, 1), (0, 2)),
    ];
    for (h, w, walls, start, goal) in cases {
        let mut g = grid_with_walls(h, w, &walls);
        let expected = bfs(&g, start, goal).unwrap();
        let (path, _, found) = run_steps(&mut g, start, goal);
        assert!(found);
        assert_eq!(path.len() + 1, expected);
    }
}

#[test]
fn enclosed_goal_is_not_found() {
    let mut g = grid_with_walls(5, 5, &[(2, 3), (3, 2), (3, 4), (4, 3)]);
    let (path, expanded, found) = run_steps(&mut g, (0, 0), (3, 3));
    assert!(!found);
    assert!(path.is_empty());
    assert_eq!(count(&g, CellType::Path), 0);
    // the walls also cut off the corner (4, 4): the other 19 cells are visited
    assert_eq!(count(&g, CellType::Visited), 19);
    assert!(expanded >= 19);
    assert_eq!(g.role((3, 3)), CellType::Empty);
}

#[test]
fn enclosed_goal_in_corner_run_search() {
    let mut g = grid_with_walls(4, 4, &[(2, 3), (3, 2)]);
    assert!(!run_search(&mut g, (0, 0), (3, 3)));
    assert_eq!(count(&g, CellType::Path), 0);
}

#[test]
fn start_equal_to_goal_finishes_at_once() {
    let mut g = Grid::new(4, 4);
    let s = Search::new(&g, (1, 2), (1, 2));
    assert_eq!(s.phase, SearchPhase::Finished(true));
    assert!(s.found());
    let (path, expanded, found) = run_steps(&mut g, (1, 2), (1, 2));
    assert!(found);
    assert!(path.is_empty());
    assert_eq!(expanded, 0);
    assert!(run_search(&mut g, (1, 2), (1, 2)));
    assert_eq!(count(&g, CellType::Empty), 16);
}

#[test]
fn first_step_expands_the_start_and_keeps_its_role() {
    let mut g = Grid::new(3, 3);
    g.set_role((0, 0), PlacementMode::Start).unwrap();
    g.set_role((2, 2), PlacementMode::Goal).unwrap();
    let mut s = Search::new(&g, (0, 0), (2, 2));
    assert_eq!(s.step(&mut g), StepResult::Expanded((0, 0)));
    assert_eq!(g.role((0, 0)), CellType::Start);
    // east is tried before south; both have the same priority, the first queued wins
    assert_eq!(s.step(&mut g), StepResult::Expanded((0, 1)));
    assert_eq!(g.role((0, 1)), CellType::Visited);
}

#[test]
fn finished_search_repeats_its_outcome() {
    let mut g = Grid::new(1, 2);
    let mut s = Search::new(&g, (0, 0), (0, 1));
    assert_eq!(s.step(&mut g), StepResult::Expanded((0, 0)));
    assert_eq!(s.step(&mut g), StepResult::Found);
    assert!(s.finished());
    assert_eq!(s.step(&mut g), StepResult::Found);
    assert_eq!(count(&g, CellType::Path), 0);
}

#[test]
fn path_cells_are_reported_from_goal_side() {
    let mut g = Grid::new(1, 5);
    let (path, expanded, found) = run_steps(&mut g, (0, 0), (0, 4));
    assert!(found);
    assert_eq!(path, vec![(0, 3), (0, 2), (0, 1)]);
    assert_eq!(expanded, 4);
    assert_eq!(g.role((0, 0)), CellType::Visited);
}
