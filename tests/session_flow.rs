use astar_grid::astar::StepResult;
use astar_grid::session::{Event, Phase, Session};
use astar_grid::types::{CellType, PathError, PlacementMode};

fn click(s: &mut Session, p: (usize, usize)) {
    assert_eq!(s.handle(Event::PointerClick(p)), Ok(()));
}

fn count(s: &Session, t: CellType) -> usize {
    s.grid.cells.iter().flatten().filter(|c| c.cell_type == t).count()
}

fn set_up(s: &mut Session) {
    for w in [(2, 2), (2, 3), (1, 2)] {
        click(s, w);
    }
    s.handle(Event::SetPlacementMode(PlacementMode::Start)).unwrap();
    click(s, (2, 0));
    s.handle(Event::SetPlacementMode(PlacementMode::Goal)).unwrap();
    click(s, (9, 9));
}

/// Advances until the session is done; returns the last step result.
fn run_to_done(s: &mut Session) -> Result<Option<StepResult>, PathError> {
    loop {
        let r = s.advance();
        if s.phase == Phase::Done {
            return r;
        }
    }
}

#[test]
fn run_without_goal_is_rejected() {
    let mut s = Session::new(10, 10);
    s.handle(Event::SetPlacementMode(PlacementMode::Start)).unwrap();
    click(&mut s, (2, 0));
    let before: Vec<CellType> = s.grid.cells.iter().flatten().map(|c| c.cell_type).collect();
    assert_eq!(s.handle(Event::RequestRun), Err(PathError::InvalidRunRequest));
    assert_eq!(s.phase, Phase::Editing);
    assert!(s.search.is_none());
    assert_eq!(s.advance(), Ok(None));
    let after: Vec<CellType> = s.grid.cells.iter().flatten().map(|c| c.cell_type).collect();
    assert_eq!(before, after);
}

#[test]
fn full_run_then_reset() {
    let mut s = Session::new(10, 10);
    set_up(&mut s);
    assert_eq!(s.start, Some((2, 0)));
    assert_eq!(s.goal, Some((9, 9)));
    assert_eq!(s.handle(Event::RequestRun), Ok(()));
    assert_eq!(s.phase, Phase::Running);
    // edits are frozen while running
    s.handle(Event::SetPlacementMode(PlacementMode::Wall)).unwrap();
    click(&mut s, (5, 5));
    assert_eq!(s.mode, PlacementMode::Goal);
    assert_eq!(s.grid.cells[5][5].cell_type, CellType::Empty);
    assert_eq!(run_to_done(&mut s), Ok(Some(StepResult::Found)));
    assert_eq!(count(&s, CellType::Path), 15);
    assert!(count(&s, CellType::Visited) > 0);
    // a run request is ignored once done
    assert_eq!(s.handle(Event::RequestRun), Ok(()));
    assert_eq!(s.phase, Phase::Done);
    assert_eq!(s.handle(Event::RequestReset), Ok(()));
    assert_eq!(s.phase, Phase::Editing);
    assert_eq!(count(&s, CellType::Path), 0);
    assert_eq!(count(&s, CellType::Visited), 0);
    assert_eq!(count(&s, CellType::Wall), 3);
    assert_eq!(s.grid.cells[2][2].cell_type, CellType::Wall);
    assert_eq!(s.start, None);
    assert_eq!(s.goal, None);
    assert_eq!(s.handle(Event::RequestRun), Err(PathError::InvalidRunRequest));
    assert_eq!(s.phase, Phase::Editing);
    // placing start and goal again makes a run possible
    s.handle(Event::SetPlacementMode(PlacementMode::Start)).unwrap();
    click(&mut s, (0, 0));
    s.handle(Event::SetPlacementMode(PlacementMode::Goal)).unwrap();
    click(&mut s, (0, 5));
    assert_eq!(s.handle(Event::RequestRun), Ok(()));
    assert_eq!(s.phase, Phase::Running);
}

#[test]
fn unreachable_goal_reports_no_path() {
    let mut s = Session::new(3, 3);
    click(&mut s, (0, 1));
    click(&mut s, (1, 0));
    click(&mut s, (1, 1));
    s.handle(Event::SetPlacementMode(PlacementMode::Start)).unwrap();
    click(&mut s, (0, 0));
    s.handle(Event::SetPlacementMode(PlacementMode::Goal)).unwrap();
    click(&mut s, (2, 2));
    assert_eq!(s.handle(Event::RequestRun), Ok(()));
    assert_eq!(run_to_done(&mut s), Err(PathError::NoPathFound));
    assert_eq!(count(&s, CellType::Path), 0);
}

#[test]
fn click_outside_grid_is_out_of_bounds() {
    let mut s = Session::new(4, 4);
    assert_eq!(s.handle(Event::PointerClick((4, 1))), Err(PathError::OutOfBounds));
    assert_eq!(s.phase, Phase::Editing);
    assert_eq!(s.pointer, None);
}

#[test]
fn start_placed_over_goal_clears_goal_mirror() {
    let mut s = Session::new(4, 4);
    s.handle(Event::SetPlacementMode(PlacementMode::Goal)).unwrap();
    click(&mut s, (1, 1));
    s.handle(Event::SetPlacementMode(PlacementMode::Start)).unwrap();
    click(&mut s, (1, 1));
    assert_eq!(s.start, Some((1, 1)));
    assert_eq!(s.goal, None);
    assert_eq!(s.pointer, Some((1, 1)));
    assert_eq!(s.grid.cells[1][1].cell_type, CellType::Start);
}

#[test]
fn start_on_wall_keeps_mirror() {
    let mut s = Session::new(4, 4);
    click(&mut s, (2, 2));
    s.handle(Event::SetPlacementMode(PlacementMode::Start)).unwrap();
    click(&mut s, (2, 2));
    assert_eq!(s.start, None);
    assert_eq!(s.grid.cells[2][2].cell_type, CellType::Wall);
}

#[test]
fn reset_is_ignored_while_editing() {
    let mut s = Session::new(3, 3);
    click(&mut s, (0, 0));
    assert_eq!(s.handle(Event::RequestReset), Ok(()));
    assert_eq!(s.phase, Phase::Editing);
    assert_eq!(s.grid.cells[0][0].cell_type, CellType::Wall);
}
