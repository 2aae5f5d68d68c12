//! The interaction state machine: editing the grid, running a search step by
//! step, and resetting for another run.

use vstd::prelude::*;
use crate::astar::{search_outcome, step_report, Search, SearchPhase, StepResult};
use crate::grid::{mode_role, Grid};
use crate::paths::pos;
use crate::types::{CellType, PathError, PlacementMode};

verus! {

/// The phase of a session.
#[derive(Clone, Copy, PartialEq, Eq, Structural, Debug)]
pub enum Phase {
    /// Placing walls, start and goal.
    Editing,
    /// A search is in progress; edits are frozen.
    Running,
    /// The search is over; only a reset is accepted.
    Done,
}

/// An input event, already mapped to grid terms.
#[derive(Clone, Copy, PartialEq, Eq, Debug)]
pub enum Event {
    PointerClick((usize, usize)),
    SetPlacementMode(PlacementMode),
    RequestRun,
    RequestReset,
}

/// One editing-and-search session over a grid of fixed dimensions.
pub struct Session {
    pub grid: Grid,
    pub phase: Phase,
    pub mode: PlacementMode,
    /// The last cell clicked.
    pub pointer: Option<(usize, usize)>,
    pub start: Option<(usize, usize)>,
    pub goal: Option<(usize, usize)>,
    /// The search under way while running.
    pub search: Option<Search>,
}

/// `m` is set to a position that holds role `t` in `g`.
pub open spec fn mirrors(g: Grid, m: Option<(usize, usize)>, t: CellType) -> bool {
    m matches Some(p) ==> g.contains(pos(p)) && g.at(pos(p)) == t
}

/// The start or goal mirror after a click placing `mode` at `p` on `g`, where
/// `own` is the mode that the mirror follows.
pub open spec fn mirror_after(
    g: Grid,
    p: (usize, usize),
    mode: PlacementMode,
    own: PlacementMode,
    m: Option<(usize, usize)>,
) -> Option<(usize, usize)> {
    if mode == PlacementMode::Wall || g.at(pos(p)) == CellType::Wall {
        m
    } else if mode == own {
        Some(p)
    } else if m == Some(p) {
        None
    } else {
        m
    }
}

impl Session {
    pub open spec fn wf(&self) -> bool {
        &&& self.grid.wf()
        &&& self.grid.height * self.grid.width + self.grid.height + self.grid.width <= usize::MAX
        &&& match self.phase {
            Phase::Editing => {
                &&& self.grid.unique_role(CellType::Start)
                &&& self.grid.unique_role(CellType::Goal)
                &&& mirrors(self.grid, self.start, CellType::Start)
                &&& mirrors(self.grid, self.goal, CellType::Goal)
                &&& self.search is None
            },
            Phase::Running => self.search matches Some(s) && s.inv(&self.grid) && !s.is_finished()
                && s.initial@.unique_role(CellType::Start) && s.initial@.unique_role(CellType::Goal),
            Phase::Done => {
                &&& self.search is None
                &&& self.grid.unique_role(CellType::Start)
                &&& self.grid.unique_role(CellType::Goal)
            },
        }
    }

    /// A session in the editing phase over an empty `height x width` grid,
    /// placing walls.
    pub fn new(height: usize, width: usize) -> (s: Session)
        requires
            height * width + height + width <= usize::MAX,
        ensures
            s.wf(),
            s.phase == Phase::Editing,
            s.mode == PlacementMode::Wall,
            s.start is None && s.goal is None && s.pointer is None,
            s.grid.height == height && s.grid.width == width,
            forall|q: (int, int)| #[trigger] s.grid.contains(q) ==> s.grid.at(q) == CellType::Empty,
    {
        Session {
            grid: Grid::new(height, width),
            phase: Phase::Editing,
            mode: PlacementMode::Wall,
            pointer: None,
            start: None,
            goal: None,
            search: None,
        }
    }

    /// Handles one input event. While editing, a click applies the placement
    /// rules of the grid, a mode switch changes what clicks place, and a run
    /// request starts a search when both start and goal are set and is refused
    /// otherwise. While running every event is ignored; once done only a reset
    /// is taken, which clears the search marks and the start and goal.
    pub fn handle(&mut self, ev: Event) -> (r: Result<(), PathError>)
        requires
            old(self).wf(),
        ensures
            final(self).wf(),
            final(self).grid.same_shape(&old(self).grid),
            match (old(self).phase, ev) {
                (Phase::Editing, Event::PointerClick(p)) => if old(self).grid.contains(pos(p)) {
                    &&& r is Ok
                    &&& old(self).grid.placement_gives(pos(p), old(self).mode, &final(self).grid)
                    &&& final(self).phase == Phase::Editing
                    &&& final(self).mode == old(self).mode
                    &&& final(self).pointer == Some(p)
                    &&& final(self).start == mirror_after(old(self).grid, p, old(self).mode, PlacementMode::Start, old(self).start)
                    &&& final(self).goal == mirror_after(old(self).grid, p, old(self).mode, PlacementMode::Goal, old(self).goal)
                } else {
                    &&& r == Err::<(), PathError>(PathError::OutOfBounds)
                    &&& final(self).grid == old(self).grid
                    &&& final(self).phase == Phase::Editing
                    &&& final(self).mode == old(self).mode
                    &&& final(self).start == old(self).start
                    &&& final(self).goal == old(self).goal
                    &&& final(self).pointer == old(self).pointer
                    &&& final(self).search == old(self).search
                },
                (Phase::Editing, Event::SetPlacementMode(m)) => {
                    &&& r is Ok
                    &&& final(self).grid == old(self).grid
                    &&& final(self).phase == Phase::Editing
                    &&& final(self).mode == m
                    &&& final(self).start == old(self).start
                    &&& final(self).goal == old(self).goal
                    &&& final(self).pointer == old(self).pointer
                    &&& final(self).search == old(self).search
                },
                (Phase::Editing, Event::RequestRun) => if old(self).start is Some && old(self).goal is Some {
                    &&& r is Ok
                    &&& final(self).grid == old(self).grid
                    &&& final(self).phase == Phase::Running
                    &&& final(self).mode == old(self).mode
                    &&& final(self).start == old(self).start
                    &&& final(self).goal == old(self).goal
                    &&& final(self).pointer == old(self).pointer
                    &&& final(self).search matches Some(s) && s.start == old(self).start->0 && s.goal
                        == old(self).goal->0 && s.initial@ == old(self).grid
                } else {
                    &&& r == Err::<(), PathError>(PathError::InvalidRunRequest)
                    &&& final(self).grid == old(self).grid
                    &&& final(self).phase == Phase::Editing
                    &&& final(self).mode == old(self).mode
                    &&& final(self).start == old(self).start
                    &&& final(self).goal == old(self).goal
                    &&& final(self).pointer == old(self).pointer
                    &&& final(self).search == old(self).search
                },
                (Phase::Done, Event::RequestReset) => {
                    &&& r is Ok
                    &&& old(self).grid.reset_gives(&final(self).grid)
                    &&& final(self).phase == Phase::Editing
                    &&& final(self).mode == old(self).mode
                    &&& final(self).start is None
                    &&& final(self).goal is None
                    &&& final(self).pointer == old(self).pointer
                    &&& final(self).search is None
                },
                _ => {
                    &&& r is Ok
                    &&& final(self).grid == old(self).grid
                    &&& final(self).phase == old(self).phase
                    &&& final(self).mode == old(self).mode
                    &&& final(self).start == old(self).start
                    &&& final(self).goal == old(self).goal
                    &&& final(self).pointer == old(self).pointer
                    &&& final(self).search == old(self).search
                },
            },
    {
        match (self.phase, ev) {
            (Phase::Editing, Event::PointerClick(p)) => {
                if !self.grid.in_bounds(p) {
                    return Err(PathError::OutOfBounds);
                }
                let target = self.grid.role(p);
                let ghost g0 = self.grid;
                let _ = self.grid.set_role(p, self.mode);
                self.pointer = Some(p);
                if target != CellType::Wall {
                    match self.mode {
                        PlacementMode::Start => {
                            self.start = Some(p);
                            if let Some(g) = self.goal {
                                if g.0 == p.0 && g.1 == p.1 {
                                    self.goal = None;
                                }
                            }
                        },
                        PlacementMode::Goal => {
                            self.goal = Some(p);
                            if let Some(s) = self.start {
                                if s.0 == p.0 && s.1 == p.1 {
                                    self.start = None;
                                }
                            }
                        },
                        PlacementMode::Wall => {},
                    }
                }
                proof {
                    lemma_placement_keeps_unique(g0, self.grid, pos(p), self.mode, CellType::Start);
                    lemma_placement_keeps_unique(g0, self.grid, pos(p), self.mode, CellType::Goal);
                    if let Some(s) = self.start {
                        assert(g0.contains(pos(s)));
                    }
                    if let Some(g) = self.goal {
                        assert(g0.contains(pos(g)));
                    }
                }
                Ok(())
            },
            (Phase::Editing, Event::SetPlacementMode(m)) => {
                self.mode = m;
                Ok(())
            },
            (Phase::Editing, Event::RequestRun) => {
                match (self.start, self.goal) {
                    (Some(s), Some(g)) => {
                        self.search = Some(Search::new(&self.grid, s, g));
                        self.phase = Phase::Running;
                        Ok(())
                    },
                    _ => Err(PathError::InvalidRunRequest),
                }
            },
            (Phase::Done, Event::RequestReset) => {
                let ghost g0 = self.grid;
                self.grid.reset_search_marks();
                proof {
                    let g1 = self.grid;
                    assert forall|a: (int, int), b: (int, int)|
                        #![trigger g1.at(a), g1.at(b)]
                        g1.contains(a) && g1.contains(b) && g1.at(a) == CellType::Start && g1.at(b) == CellType::Start
                        implies a == b by {
                        assert(g0.contains(a) && g0.contains(b));
                        assert(g0.at(a) == CellType::Start && g0.at(b) == CellType::Start);
                    }
                    assert forall|a: (int, int), b: (int, int)|
                        #![trigger g1.at(a), g1.at(b)]
                        g1.contains(a) && g1.contains(b) && g1.at(a) == CellType::Goal && g1.at(b) == CellType::Goal
                        implies a == b by {
                        assert(g0.contains(a) && g0.contains(b));
                        assert(g0.at(a) == CellType::Goal && g0.at(b) == CellType::Goal);
                    }
                }
                self.start = None;
                self.goal = None;
                self.phase = Phase::Editing;
                Ok(())
            },
            _ => Ok(()),
        }
    }
}

impl Session {
    /// While running, performs one step of the search. When that step ends the
    /// search the session is done, and a search that found no path reports
    /// `NoPathFound`. In any other phase nothing happens and there is no step.
    pub fn advance(&mut self) -> (r: Result<Option<StepResult>, PathError>)
        requires
            old(self).wf(),
        ensures
            final(self).wf(),
            final(self).grid.same_shape(&old(self).grid),
            final(self).mode == old(self).mode,
            final(self).start == old(self).start,
            final(self).goal == old(self).goal,
            old(self).phase != Phase::Running ==> r == Ok::<Option<StepResult>, PathError>(None) && final(self).grid
                == old(self).grid && final(self).phase == old(self).phase,
            old(self).phase == Phase::Running ==> match r {
                Ok(Some(step)) => {
                    &&& step_report(step, step_phase(step), old(self).grid, final(self).grid)
                    &&& step is Found <==> final(self).phase == Phase::Done
                },
                Err(e) => {
                    &&& e == PathError::NoPathFound
                    &&& final(self).phase == Phase::Done
                    &&& step_report(StepResult::NotFound, SearchPhase::Finished(false), old(self).grid, final(self).grid)
                },
                Ok(None) => false,
            },
            old(self).phase == Phase::Running && final(self).phase == Phase::Done ==> search_outcome(
                old(self).search->0.initial@,
                final(self).grid,
                pos(old(self).search->0.start),
                pos(old(self).search->0.goal),
                r is Ok,
            ),
            old(self).phase == Phase::Running && final(self).phase == Phase::Running ==> {
                &&& final(self).search->0.initial == old(self).search->0.initial
                &&& final(self).search->0.start == old(self).search->0.start
                &&& final(self).search->0.goal == old(self).search->0.goal
                &&& final(self).search->0.measure() < old(self).search->0.measure()
            },
    {
        if self.phase != Phase::Running {
            return Ok(None);
        }
        let mut search = self.search.take().unwrap();
        let step = search.step(&mut self.grid);
        if search.finished() {
            self.phase = Phase::Done;
            proof {
                search.lemma_outcome(&self.grid, step is Found);
            }
            match step {
                StepResult::NotFound => Err(PathError::NoPathFound),
                _ => Ok(Some(step)),
            }
        } else {
            self.search = Some(search);
            Ok(Some(step))
        }
    }
}

/// The search phase that a step reporting `step` leaves.
pub open spec fn step_phase(step: StepResult) -> SearchPhase {
    match step {
        StepResult::Expanded(_) => SearchPhase::Expanding,
        StepResult::PathCell(p) => SearchPhase::Tracing(p),
        StepResult::Found => SearchPhase::Finished(true),
        StepResult::NotFound => SearchPhase::Finished(false),
    }
}

/// A placement never leaves two cells holding the start role, nor two holding
/// the goal role, where there was at most one before.
proof fn lemma_placement_keeps_unique(a: Grid, b: Grid, p: (int, int), mode: PlacementMode, t: CellType)
    requires
        a.wf(),
        a.contains(p),
        a.placement_gives(p, mode, &b),
        a.unique_role(t),
        t == CellType::Start || t == CellType::Goal,
    ensures
        b.unique_role(t),
{
    assert forall|u: (int, int), v: (int, int)|
        #![trigger b.at(u), b.at(v)]
        b.contains(u) && b.contains(v) && b.at(u) == t && b.at(v) == t implies u == v by {
        assert(a.contains(u) && a.contains(v));
        if mode == PlacementMode::Wall || a.at(p) == CellType::Wall || mode_role(mode) != t {
            assert(a.at(u) == t && a.at(v) == t);
        }
    }
}

} // verus!
