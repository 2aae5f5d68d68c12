//! The incremental A* search engine: one call of `step` performs one open-set
//! pop or one path-reconstruction move, so a host can observe every step.

use vstd::prelude::*;
use crate::grid::Grid;
use crate::paths::{adjacent, lemma_positions_bound, lemma_row_sum_update, lemma_table_sum_update, positions, is_walk, manhattan, pos, reachable, table_sum, walk_between};
use crate::types::{CellType, State};

verus! {

/// Manhattan distance used as heuristic.
pub fn heuristic(a: (usize, usize), b: (usize, usize)) -> (r: usize)
    requires
        manhattan(pos(a), pos(b)) <= usize::MAX,
    ensures
        r == manhattan(pos(a), pos(b)),
{
    let dy = if a.0 >= b.0 {
        a.0 - b.0
    } else {
        b.0 - a.0
    };
    let dx = if a.1 >= b.1 {
        a.1 - b.1
    } else {
        b.1 - a.1
    };
    dy + dx
}

/// Where a search stands.
#[derive(Clone, Copy, PartialEq, Eq, Debug)]
pub enum SearchPhase {
    /// Popping the open set.
    Expanding,
    /// Walking predecessors back from the goal; holds the last cell reached.
    Tracing((usize, usize)),
    /// Done; holds whether a path was found.
    Finished(bool),
}

/// What one step of the search did.
#[derive(Clone, Copy, PartialEq, Eq, Debug)]
pub enum StepResult {
    /// A position was popped from the open set (and marked visited unless it is
    /// an endpoint).
    Expanded((usize, usize)),
    /// A cell of the reconstructed path was marked.
    PathCell((usize, usize)),
    /// The search is over and a path was found.
    Found,
    /// The search is over and no path exists.
    NotFound,
}

/// The state of one search run over a grid of fixed dimensions.
pub struct Search {
    pub start: (usize, usize),
    pub goal: (usize, usize),
    pub height: usize,
    pub width: usize,
    /// Open set; stale entries are tolerated.
    pub open: Vec<State>,
    /// Best known cost from the start; `usize::MAX` stands for unreached.
    pub g_score: Vec<Vec<usize>>,
    /// Predecessor on the best known path, meaningful for reached non-start cells.
    pub came_from: Vec<Vec<(usize, usize)>>,
    pub phase: SearchPhase,
    /// The grid as it was when the search began.
    pub initial: Ghost<Grid>,
    /// Positions with a finite score.
    pub reached: Ghost<Set<(int, int)>>,
    /// Positions popped from the open set so far.
    pub popped: Ghost<Set<(int, int)>>,
    /// Positions marked as path cells so far.
    pub marked: Ghost<Set<(int, int)>>,
    /// The reconstructed walk so far, ending at the goal.
    pub trail: Ghost<Seq<(int, int)>>,
}

/// Roles that a visit never overwrites.
pub open spec fn is_endpoint(t: CellType) -> bool {
    t == CellType::Start || t == CellType::Goal
}

/// `w` is a walk from `a` to `b` on `g` and no such walk is shorter.
pub open spec fn shortest_walk(g: Grid, w: Seq<(int, int)>, a: (int, int), b: (int, int)) -> bool {
    &&& walk_between(g, w, a, b)
    &&& forall|v: Seq<(int, int)>| #[trigger] walk_between(g, v, a, b) ==> w.len() <= v.len()
}

/// What a finished search over `before`, leaving `after`, promises: whether
/// a path exists; walls kept; visits only on cells that are neither walls nor
/// endpoints; and, when a path exists, path marks exactly on the inner cells of
/// a shortest walk from start to goal (cells that were path cells before may
/// stay so). The goal cell keeps its role, every newly visited cell is
/// reachable from the start, and a search that finds no path visits every
/// reachable empty cell.
pub open spec fn search_outcome(
    before: Grid,
    after: Grid,
    start: (int, int),
    goal: (int, int),
    found: bool,
) -> bool {
    &&& after.wf()
    &&& after.same_shape(&before)
    &&& found == reachable(before, start, goal)
    &&& forall|q: (int, int)| #[trigger] before.contains(q) ==> {
        ||| after.at(q) == before.at(q)
        ||| after.at(q) == CellType::Visited && before.at(q) != CellType::Wall && !is_endpoint(before.at(q))
        ||| after.at(q) == CellType::Path && before.at(q) != CellType::Wall
    }
    &&& after.at(goal) == before.at(goal)
    &&& forall|q: (int, int)| #[trigger] before.contains(q) && after.at(q) == CellType::Visited && before.at(q)
        != CellType::Visited ==> reachable(before, start, q)
    &&& !found ==> forall|q: (int, int)| #[trigger] before.contains(q) && after.at(q) == CellType::Path
        ==> before.at(q) == CellType::Path
    &&& !found ==> forall|q: (int, int)| #[trigger] before.contains(q) && reachable(before, start, q) && before.at(q)
        == CellType::Empty ==> after.at(q) == CellType::Visited
    &&& found ==> exists|w: Seq<(int, int)>| {
        &&& shortest_walk(before, w, start, goal)
        &&& forall|i: int| 1 <= i < w.len() - 1 ==> after.at(#[trigger] w[i]) == CellType::Path
        &&& forall|q: (int, int)| #[trigger] before.contains(q) && after.at(q) == CellType::Path
            && before.at(q) != CellType::Path ==> exists|i: int| 1 <= i < w.len() - 1 && w[i] == q
    }
}

/// Some entry of `open` is at `q` with priority `pr`.
pub open spec fn has_entry(open: Seq<State>, q: (int, int), pr: int) -> bool {
    exists|i: int| 0 <= i < open.len() && pos(#[trigger] open[i].position) == q && open[i].priority == pr
}

/// What a step reporting `r` did to the grid, and the phase it left.
pub open spec fn step_report(r: StepResult, phase: SearchPhase, before: Grid, after: Grid) -> bool {
    match r {
        StepResult::Expanded(p) => {
            &&& phase == SearchPhase::Expanding
            &&& forall|q: (int, int)| before.contains(q) && q != pos(p) ==> #[trigger] after.at(q) == before.at(q)
        },
        StepResult::PathCell(p) => {
            &&& phase == SearchPhase::Tracing(p)
            &&& after.at(pos(p)) == CellType::Path
            &&& forall|q: (int, int)| before.contains(q) && q != pos(p) ==> #[trigger] after.at(q) == before.at(q)
        },
        StepResult::Found => {
            &&& phase == SearchPhase::Finished(true)
            &&& forall|q: (int, int)| before.contains(q) ==> #[trigger] after.at(q) == before.at(q)
        },
        StepResult::NotFound => {
            &&& phase == SearchPhase::Finished(false)
            &&& forall|q: (int, int)| before.contains(q) ==> #[trigger] after.at(q) == before.at(q)
        },
    }
}

impl Search {
    pub open spec fn contains(&self, q: (int, int)) -> bool {
        0 <= q.0 < self.height && 0 <= q.1 < self.width
    }

    pub open spec fn g(&self, q: (int, int)) -> int {
        self.g_score@[q.0]@[q.1] as int
    }

    pub open spec fn came(&self, q: (int, int)) -> (int, int) {
        pos(self.came_from@[q.0]@[q.1])
    }

    /// If `n` is passable, it has been reached at a cost of at most one more than `q`'s.
    pub open spec fn nb_ok(&self, q: (int, int), n: (int, int)) -> bool {
        self.initial@.passable(n) ==> self.reached@.contains(n) && self.g(n) <= self.g(q) + 1
    }

    /// The heuristic estimate from `q` to the goal.
    pub open spec fn h(&self, q: (int, int)) -> int {
        manhattan(q, pos(self.goal))
    }

    /// The open set holds an entry for `q` whose priority reflects its current score.
    pub open spec fn open_has(&self, q: (int, int)) -> bool {
        has_entry(self.open@, q, self.g(q) + self.h(q))
    }

    /// Every passable neighbour of `q` has been reached at a cost of at most
    /// one more than `q`'s.
    pub open spec fn settled(&self, q: (int, int)) -> bool {
        forall|n: (int, int)| #[trigger] adjacent(q, n) && self.initial@.passable(n)
            ==> self.reached@.contains(n) && self.g(n) <= self.g(q) + 1
    }

    pub open spec fn is_finished(&self) -> bool {
        self.phase is Finished
    }

    /// The role the grid holds at `q` given the marks made so far.
    pub open spec fn expected(&self, q: (int, int)) -> CellType {
        if self.marked@.contains(q) {
            CellType::Path
        } else if self.popped@.contains(q) && !is_endpoint(self.initial@.at(q)) {
            CellType::Visited
        } else {
            self.initial@.at(q)
        }
    }

    pub open spec fn shape_ok(&self, grid: &Grid) -> bool {
        &&& grid.wf()
        &&& self.initial@.wf()
        &&& grid.height == self.height && grid.width == self.width
        &&& self.initial@.height == self.height && self.initial@.width == self.width
        &&& self.g_score@.len() == self.height
        &&& self.came_from@.len() == self.height
        &&& forall|r: int| 0 <= r < self.height ==> #[trigger] self.g_score@[r]@.len() == self.width
        &&& forall|r: int| 0 <= r < self.height ==> #[trigger] self.came_from@[r]@.len() == self.width
        &&& self.height * self.width + self.height + self.width <= usize::MAX
        &&& self.initial@.passable(pos(self.start))
        &&& self.initial@.passable(pos(self.goal))
    }

    pub open spec fn scores_ok(&self) -> bool {
        &&& self.g(pos(self.start)) == 0
        &&& self.reached@.finite()
        &&& self.reached@.len() <= self.height * self.width
        &&& forall|q: (int, int)| #[trigger] self.reached@.contains(q) <==> (self.contains(q) && self.g(q) < usize::MAX)
        &&& forall|q: (int, int)| #[trigger] self.reached@.contains(q) ==> self.initial@.passable(q)
            && self.g(q) < self.reached@.len()
        &&& forall|q: (int, int)| #[trigger] self.reached@.contains(q) && q != pos(self.start) ==> {
            &&& self.reached@.contains(self.came(q))
            &&& adjacent(self.came(q), q)
            &&& self.g(self.came(q)) < self.g(q)
        }
        &&& self.popped@.subset_of(self.reached@)
        &&& !self.popped@.contains(pos(self.goal))
        &&& !self.marked@.contains(pos(self.goal))
        &&& self.marked@.subset_of(self.reached@)
    }

    pub open spec fn marks_ok(&self, grid: &Grid) -> bool {
        forall|q: (int, int)| self.contains(q) ==> #[trigger] grid.at(q) == self.expected(q)
    }

    /// Every reached position other than `x` has an up-to-date open entry or is settled.
    /// The open set holds some entry for `q`, up to date or not.
    pub open spec fn open_holds(&self, q: (int, int)) -> bool {
        exists|pr: int| #[trigger] has_entry(self.open@, q, pr)
    }

    /// Every reached position other than `x` has been popped or is still queued.
    pub open spec fn tracked_but(&self, x: (int, int)) -> bool {
        forall|q: (int, int)| #[trigger] self.reached@.contains(q) && q != x ==> self.popped@.contains(q) || self.open_holds(q)
    }

    pub open spec fn closed_but(&self, x: (int, int)) -> bool {
        forall|q: (int, int)| #[trigger] self.reached@.contains(q) && q != x ==> self.open_has(q) || self.settled(q)
    }

    pub open spec fn frontier_ok(&self) -> bool {
        &&& self.start != self.goal
        &&& self.marked@ == Set::<(int, int)>::empty()
        &&& forall|i: int| 0 <= i < self.open.len() ==> self.reached@.contains(pos(#[trigger] self.open@[i].position))
            && self.open@[i].priority >= self.g(pos(self.open@[i].position)) + self.h(pos(self.open@[i].position))
        &&& self.reached@.contains(pos(self.goal)) ==> self.open_has(pos(self.goal))
    }

    pub open spec fn trail_ok(&self) -> bool {
        let t = self.trail@;
        match self.phase {
            SearchPhase::Expanding => self.frontier_ok() && self.closed_but((-1, -1)) && self.tracked_but((-1, -1)),
            SearchPhase::Tracing(cur) => {
                &&& is_walk(self.initial@, t)
                &&& t[0] == pos(cur)
                &&& t.last() == pos(self.goal)
                &&& self.reached@.contains(pos(cur))
                &&& cur != self.start
                &&& self.g(pos(cur)) + t.len() - 1 <= self.g(pos(self.goal))
                &&& self.reached@.contains(pos(self.goal))
                &&& forall|w: Seq<(int, int)>| #[trigger] walk_between(self.initial@, w, pos(self.start), pos(self.goal))
                    ==> self.g(pos(self.goal)) <= w.len() - 1
                &&& forall|i: int| 0 <= i < t.len() - 1 ==> self.marked@.contains(#[trigger] t[i])
                &&& forall|q: (int, int)| #[trigger] self.marked@.contains(q) ==> exists|i: int| 0 <= i < t.len() - 1 && t[i] == q
            },
            SearchPhase::Finished(found) => if found {
                &&& walk_between(self.initial@, t, pos(self.start), pos(self.goal))
                &&& t.len() - 1 == self.g(pos(self.goal))
                &&& forall|w: Seq<(int, int)>| #[trigger] walk_between(self.initial@, w, pos(self.start), pos(self.goal))
                    ==> t.len() <= w.len()
                &&& forall|i: int| 1 <= i < t.len() - 1 ==> self.marked@.contains(#[trigger] t[i])
                &&& forall|q: (int, int)| #[trigger] self.marked@.contains(q) ==> exists|i: int| 1 <= i < t.len() - 1 && t[i] == q
            } else {
                &&& !reachable(self.initial@, pos(self.start), pos(self.goal))
                &&& forall|q: (int, int)| #[trigger] reachable(self.initial@, pos(self.start), q) ==> self.popped@.contains(q)
                &&& self.marked@ == Set::<(int, int)>::empty()
            },
        }
    }

    /// The search's invariant relative to the grid it runs on.
    pub open spec fn inv(&self, grid: &Grid) -> bool {
        &&& self.shape_ok(grid)
        &&& self.scores_ok()
        &&& self.marks_ok(grid)
        &&& self.trail_ok()
    }

    /// Decreases with every step until the search is finished.
    pub open spec fn measure(&self) -> int {
        match self.phase {
            SearchPhase::Expanding => self.height * self.width + 2 + 5 * table_sum(self.g_score@)
                + self.open.len(),
            SearchPhase::Tracing(cur) => self.g(pos(cur)) + 1,
            SearchPhase::Finished(_) => 0,
        }
    }
}

/// A `height x width` table with every entry `v`.
fn filled_table<T: Copy>(height: usize, width: usize, v: T) -> (t: Vec<Vec<T>>)
    ensures
        t@.len() == height,
        forall|r: int| 0 <= r < height ==> #[trigger] t@[r]@.len() == width,
        forall|r: int, c: int| 0 <= r < height && 0 <= c < width ==> #[trigger] t@[r]@[c] == v,
{
    let mut t: Vec<Vec<T>> = Vec::new();
    let mut r: usize = 0;
    while r < height
        invariant
            r <= height,
            t@.len() == r,
            forall|i: int| 0 <= i < r ==> #[trigger] t@[i]@.len() == width,
            forall|i: int, j: int| 0 <= i < r && 0 <= j < width ==> #[trigger] t@[i]@[j] == v,
        decreases height - r,
    {
        let mut row: Vec<T> = Vec::new();
        let mut c: usize = 0;
        while c < width
            invariant
                c <= width,
                row@.len() == c,
                forall|j: int| 0 <= j < c ==> #[trigger] row@[j] == v,
            decreases width - c,
        {
            row.push(v);
            c += 1;
        }
        t.push(row);
        r += 1;
    }
    t
}

impl Search {
    /// Begins a search from `start` to `goal` on `grid`. When the two coincide
    /// the search is finished at once, with a path found and nothing to mark.
    pub fn new(grid: &Grid, start: (usize, usize), goal: (usize, usize)) -> (s: Search)
        requires
            grid.wf(),
            grid.passable(pos(start)),
            grid.passable(pos(goal)),
            grid.height * grid.width + grid.height + grid.width <= usize::MAX,
        ensures
            s.inv(grid),
            s.initial@ == *grid,
            s.start == start,
            s.goal == goal,
            start == goal ==> s.phase == SearchPhase::Finished(true),
            start != goal ==> s.phase == SearchPhase::Expanding,
    {
        let height = grid.height;
        let width = grid.width;
        let mut g_score = filled_table(height, width, usize::MAX);
        let came_from = filled_table(height, width, (0usize, 0usize));
        let ghost g0 = g_score@;
        g_score[start.0][start.1] = 0;
        let mut open: Vec<State> = Vec::new();
        let phase = if start.0 == goal.0 && start.1 == goal.1 {
            SearchPhase::Finished(true)
        } else {
            assert(manhattan(pos(start), pos(goal)) <= height + width) by (nonlinear_arith)
                requires
                    start.0 < height,
                    goal.0 < height,
                    start.1 < width,
                    goal.1 < width,
                    manhattan(pos(start), pos(goal)) == crate::paths::abs_diff(start.0 as int, goal.0 as int)
                        + crate::paths::abs_diff(start.1 as int, goal.1 as int),
            ;
            open.push(State { position: start, priority: heuristic(start, goal) });
            SearchPhase::Expanding
        };
        let ghost reached = set![pos(start)];
        let ghost trail = seq![pos(start)];
        let s = Search {
            start,
            goal,
            height,
            width,
            open,
            g_score,
            came_from,
            phase,
            initial: Ghost(*grid),
            reached: Ghost(reached),
            popped: Ghost(Set::empty()),
            marked: Ghost(Set::empty()),
            trail: Ghost(trail),
        };
        proof {
            assert forall|r: int| 0 <= r < height implies #[trigger] s.g_score@[r]@.len() == width by {
                if r != start.0 {
                    assert(s.g_score@[r] == g0[r]);
                }
            }
            assert forall|q: (int, int)| #[trigger] s.reached@.contains(q) <==> (s.contains(q) && s.g(q) < usize::MAX) by {
                if s.contains(q) && q.0 != start.0 {
                    assert(s.g_score@[q.0] == g0[q.0]);
                }
            }
            assert(1 <= height * width) by (nonlinear_arith)
                requires
                    1 <= height,
                    1 <= width,
            ;
            if start != goal {
                assert(s.open_has(pos(start))) by {
                    assert(pos(s.open@[0].position) == pos(start));
                }
            } else {
                assert(walk_between(*grid, s.trail@, pos(start), pos(goal)));
            }
        }
        s
    }
}

/// Removes and returns the first entry of least priority.
fn pop_frontier(open: &mut Vec<State>) -> (e: State)
    requires
        old(open)@.len() > 0,
    ensures
        final(open)@.len() == old(open)@.len() - 1,
        old(open)@.contains(e),
        forall|j: int| 0 <= j < old(open)@.len() ==> e.priority <= #[trigger] old(open)@[j].priority,
        forall|q: (int, int), pr: int| has_entry(old(open)@, q, pr) && q != pos(e.position) ==> #[trigger] has_entry(
            final(open)@,
            q,
            pr,
        ),
        forall|k: int| 0 <= k < final(open)@.len() ==> old(open)@.contains(#[trigger] final(open)@[k]),
{
    let i = min_index(open);
    let ghost before = open@;
    let e = open.remove(i);
    proof {
        assert(before[i as int] == e);
        assert forall|q: (int, int), pr: int| has_entry(before, q, pr) && q != pos(e.position) implies #[trigger] has_entry(
            open@,
            q,
            pr,
        ) by {
            let j = choose|j: int| 0 <= j < before.len() && pos(#[trigger] before[j].position) == q && before[j].priority == pr;
            if j < i {
                assert(open@[j] == before[j]);
            } else {
                assert(open@[j - 1] == before[j]);
            }
        }
        assert forall|k: int| 0 <= k < open@.len() implies before.contains(#[trigger] open@[k]) by {
            if k < i {
                assert(open@[k] == before[k]);
            } else {
                assert(open@[k] == before[k + 1]);
            }
        }
    }
    e
}

/// Index of the first entry with the least priority.
fn min_index(open: &Vec<State>) -> (i: usize)
    requires
        open@.len() > 0,
    ensures
        i < open@.len(),
        forall|j: int| 0 <= j < open@.len() ==> open@[i as int].priority <= #[trigger] open@[j].priority,
{
    let mut best: usize = 0;
    let mut k: usize = 1;
    while k < open.len()
        invariant
            1 <= k <= open@.len(),
            best < k,
            forall|j: int| 0 <= j < k ==> open@[best as int].priority <= #[trigger] open@[j].priority,
        decreases open@.len() - k,
    {
        if open[k].priority < open[best].priority {
            best = k;
        }
        k += 1;
    }
    best
}

impl Search {
    /// Only walls of the initial grid are walls of the grid being searched.
    proof fn lemma_walls_agree(&self, grid: &Grid)
        requires
            self.shape_ok(grid),
            self.scores_ok(),
            self.marks_ok(grid),
        ensures
            forall|q: (int, int)| #[trigger] self.contains(q) ==> (grid.at(q) == CellType::Wall
                <==> self.initial@.at(q) == CellType::Wall),
    {
        assert forall|q: (int, int)| #[trigger] self.contains(q) implies (grid.at(q) == CellType::Wall
            <==> self.initial@.at(q) == CellType::Wall) by {
            if self.marked@.contains(q) || self.popped@.contains(q) {
                assert(self.reached@.contains(q));
            }
        }
    }

    /// With the open set empty, every walk from the start stays on reached cells.
    proof fn lemma_walk_reached(&self, w: Seq<(int, int)>, k: int)
        requires
            self.initial@.passable(pos(self.start)),
            self.initial@.height == self.height && self.initial@.width == self.width,
            self.scores_ok(),
            self.closed_but((-1, -1)),
            self.open@.len() == 0,
            is_walk(self.initial@, w),
            w[0] == pos(self.start),
            0 <= k < w.len(),
        ensures
            self.reached@.contains(w[k]),
        decreases k,
    {
        if k == 0 {
            assert(self.contains(pos(self.start)));
        } else {
            self.lemma_walk_reached(w, k - 1);
            let j = k - 1;
            assert(adjacent(w[j], w[j + 1]));
            assert(self.initial@.passable(w[k]));
            assert(!self.open_has(w[k - 1]));
        }
    }

    /// Tries the move from `cur` to its neighbour `n`, lowering `n`'s score and
    /// queueing it when the move improves on the best known cost.
    fn relax(&mut self, grid: &Grid, cur: (usize, usize), n: (usize, usize))
        requires
            old(self).expanding_at(grid, cur),
            adjacent(pos(cur), pos(n)),
            old(self).contains(pos(n)),
        ensures
            final(self).expanding_at(grid, cur),
            old(self).reached@.subset_of(final(self).reached@),
            final(self).nb_ok(pos(cur), pos(n)),
            forall|q: (int, int)| old(self).nb_ok(pos(cur), q) ==> #[trigger] final(self).nb_ok(pos(cur), q),
            5 * table_sum(final(self).g_score@) + final(self).open@.len() <= 5 * table_sum(
                old(self).g_score@,
            ) + old(self).open@.len(),
            final(self).start == old(self).start,
            final(self).goal == old(self).goal,
            final(self).height == old(self).height,
            final(self).width == old(self).width,
            final(self).initial == old(self).initial,
            final(self).popped == old(self).popped,
            final(self).marked == old(self).marked,
    {
        proof {
            reveal(Search::expanding_at);
            self.lemma_walls_agree(grid);
        }
        if grid.role(n) == CellType::Wall {
            return;
        }
        let tentative = self.g_score[cur.0][cur.1] + 1;
        if tentative < self.g_score[n.0][n.1] {
            let ghost old_g = self.g_score@;
            let ghost old_came = self.came_from@;
            let ghost np = pos(n);
            self.g_score[n.0][n.1] = tentative;
            self.came_from[n.0][n.1] = cur;
            proof {
                let new_reached = self.reached@.insert(np);
                assert(new_reached.subset_of(positions(self.height as int, self.width as int)));
                lemma_positions_bound(self.height as int, self.width as int, new_reached);
                if self.reached@.contains(np) {
                    assert(new_reached =~= self.reached@);
                }
                self.reached = Ghost(new_reached);
                assert(self.g_score@ =~= old_g.update(n.0 as int, self.g_score@[n.0 as int]));
                assert(self.g_score@[n.0 as int]@ =~= old_g[n.0 as int]@.update(n.1 as int, tentative));
                lemma_table_sum_update(old_g, n.0 as int, self.g_score@[n.0 as int]);
                lemma_row_sum_update(old_g[n.0 as int]@, n.1 as int, tentative);
                assert forall|r: int| 0 <= r < self.height implies #[trigger] self.g_score@[r]@.len()
                    == self.width by {
                    if r != n.0 {
                        assert(self.g_score@[r] == old_g[r]);
                    }
                }
                assert forall|r: int| 0 <= r < self.height implies #[trigger] self.came_from@[r]@.len()
                    == self.width by {
                    if r != n.0 {
                        assert(self.came_from@[r] == old_came[r]);
                    }
                }
                assert forall|q: (int, int)| self.contains(q) && q != np implies self.g(q) == old(self).g(q)
                    && self.came(q) == old(self).came(q) by {
                    if q.0 != n.0 {
                        assert(self.g_score@[q.0] == old_g[q.0]);
                        assert(self.came_from@[q.0] == old_came[q.0]);
                    }
                }
            }
            assert(manhattan(pos(n), pos(self.goal)) <= self.height + self.width);
            let h = heuristic(n, self.goal);
            let ghost before_push = self.open@;
            self.open.push(State { position: n, priority: tentative + h });
            proof {
                assert(pos(self.open@[self.open@.len() - 1].position) == np);
                assert(self.open_has(np));
                assert forall|q: (int, int)| old(self).open_has(q) && q != np implies self.open_has(q) by {
                    let j = choose|j: int| 0 <= j < old(self).open.len() && pos(#[trigger] old(self).open@[j].position) == q
                        && old(self).open@[j].priority == old(self).g(q) + old(self).h(q);
                    assert(self.open@[j] == before_push[j]);
                }
                assert forall|q: (int, int)| #[trigger] self.reached@.contains(q) && q != pos(cur)
                    implies self.open_has(q) || self.settled(q) by {
                    if q != np {
                        assert(old(self).reached@.contains(q));
                        if old(self).open_has(q) {
                        } else {
                            assert(old(self).settled(q));
                            assert forall|m: (int, int)| #[trigger] adjacent(q, m) && self.initial@.passable(m)
                                implies self.reached@.contains(m) && self.g(m) <= self.g(q) + 1 by {
                                assert(old(self).reached@.contains(m));
                            }
                        }
                    }
                }
                assert forall|i: int| 0 <= i < self.open.len() implies self.reached@.contains(
                    pos(#[trigger] self.open@[i].position),
                ) && self.open@[i].priority >= self.g(pos(self.open@[i].position)) + self.h(pos(self.open@[i].position)) by {
                    if i < before_push.len() {
                        assert(self.open@[i] == before_push[i]);
                        assert(old(self).reached@.contains(pos(old(self).open@[i].position)));
                    }
                }
                assert forall|q: (int, int)| #[trigger] self.reached@.contains(q) && q != pos(self.start) implies {
                    &&& self.reached@.contains(self.came(q))
                    &&& adjacent(self.came(q), q)
                    &&& self.g(self.came(q)) < self.g(q)
                } by {
                    if q != np {
                        assert(old(self).reached@.contains(q));
                        assert(old(self).reached@.contains(old(self).came(q)));
                    }
                }
                assert forall|q: (int, int)| #[trigger] self.reached@.contains(q) implies self.initial@.passable(q)
                    && self.g(q) < self.reached@.len() by {
                    if q != np {
                        assert(old(self).reached@.contains(q));
                    }
                }
                assert forall|q: (int, int)| #[trigger] self.reached@.contains(q) <==> (self.contains(q)
                    && self.g(q) < usize::MAX) by {
                    if q != np && self.contains(q) {
                        assert(old(self).reached@.contains(q) <==> old(self).g(q) < usize::MAX);
                    }
                }
                assert(self.g(pos(cur)) == old(self).g(pos(cur)));
                assert forall|q: (int, int)| old(self).nb_ok(pos(cur), q) implies #[trigger] self.nb_ok(pos(cur), q) by {
                    if q != np && self.initial@.passable(q) {
                        assert(old(self).reached@.contains(q));
                    }
                }
                assert(self.nb_ok(pos(cur), np));
                assert forall|q: (int, int)| #[trigger] self.reached@.contains(q) && q != pos(cur) implies
                    self.popped@.contains(q) || self.open_holds(q) by {
                    if q == np {
                        let last = self.open@.len() - 1;
                        assert(has_entry(self.open@, np, self.open@[last].priority as int));
                    } else {
                        assert(old(self).reached@.contains(q));
                        if !self.popped@.contains(q) {
                            let pr = choose|pr: int| #[trigger] has_entry(old(self).open@, q, pr);
                            let j = choose|j: int| 0 <= j < old(self).open.len() && pos(#[trigger] old(self).open@[j].position)
                                == q && old(self).open@[j].priority == pr;
                            assert(self.open@[j] == before_push[j]);
                            assert(has_entry(self.open@, q, pr));
                        }
                    }
                }
            }
        }
    }
}

impl Search {
    /// Moves one cell back along the predecessors from `cur`, marking the cell
    /// reached as part of the path unless it is the start.
    #[verifier::rlimit(60)]
    fn trace_move(&mut self, grid: &mut Grid, cur: (usize, usize)) -> (r: StepResult)
        requires
            old(self).inv(old(grid)),
            old(self).phase == SearchPhase::Tracing(cur),
        ensures
            final(self).inv(final(grid)),
            final(self).measure() < old(self).measure(),
            final(self).start == old(self).start,
            final(self).goal == old(self).goal,
            final(self).height == old(self).height,
            final(self).width == old(self).width,
            final(self).initial == old(self).initial,
            step_report(r, final(self).phase, *old(grid), *final(grid)),
            r is PathCell || r is Found,
    {
        let next = self.came_from[cur.0][cur.1];
        let ghost old_trail = self.trail@;
        let ghost new_trail = seq![pos(next)] + old_trail;
        proof {
            assert(self.reached@.contains(pos(next)));
            assert(self.initial@.passable(pos(next)));
            assert forall|i: int| 0 <= i < new_trail.len() implies self.initial@.passable(#[trigger] new_trail[i]) by {
                if i > 0 {
                    assert(new_trail[i] == old_trail[i - 1]);
                }
            }
            assert forall|i: int| 0 <= i < new_trail.len() - 1 implies #[trigger] adjacent(new_trail[i], new_trail[i + 1]) by {
                if i > 0 {
                    assert(new_trail[i] == old_trail[i - 1]);
                    assert(new_trail[i + 1] == old_trail[(i - 1) + 1]);
                }
            }
            assert(new_trail.last() == old_trail.last());
        }
        if next.0 == self.start.0 && next.1 == self.start.1 {
            self.trail = Ghost(new_trail);
            self.phase = SearchPhase::Finished(true);
            proof {
                assert(walk_between(self.initial@, new_trail, pos(self.start), pos(self.goal)));
                assert forall|i: int| 1 <= i < new_trail.len() - 1 implies self.marked@.contains(#[trigger] new_trail[i]) by {
                    assert(new_trail[i] == old_trail[i - 1]);
                }
                assert forall|q: (int, int)| #[trigger] self.marked@.contains(q) implies exists|i: int|
                    1 <= i < new_trail.len() - 1 && new_trail[i] == q by {
                    let i = choose|i: int| 0 <= i < old_trail.len() - 1 && old_trail[i] == q;
                    assert(new_trail[i + 1] == old_trail[i]);
                }
                assert(self.shape_ok(grid));
                assert(self.scores_ok());
                assert(self.marks_ok(grid));
                assert(self.trail_ok());
            }
            StepResult::Found
        } else {
            grid.mark(next, CellType::Path);
            self.trail = Ghost(new_trail);
            self.marked = Ghost(self.marked@.insert(pos(next)));
            self.phase = SearchPhase::Tracing(next);
            proof {
                assert forall|i: int| 0 <= i < new_trail.len() - 1 implies self.marked@.contains(#[trigger] new_trail[i]) by {
                    if i > 0 {
                        assert(new_trail[i] == old_trail[i - 1]);
                    }
                }
                assert forall|q: (int, int)| #[trigger] self.marked@.contains(q) implies exists|i: int|
                    0 <= i < new_trail.len() - 1 && new_trail[i] == q by {
                    if q != pos(next) {
                        let i = choose|i: int| 0 <= i < old_trail.len() - 1 && old_trail[i] == q;
                        assert(new_trail[i + 1] == old_trail[i]);
                    } else {
                        assert(new_trail[0] == q);
                    }
                }
                assert(self.shape_ok(grid));
                assert(self.scores_ok());
                assert forall|q: (int, int)| self.contains(q) implies #[trigger] grid.at(q) == self.expected(q) by {
                    assert(old(grid).contains(q));
                    if q != pos(next) {
                        assert(old(grid).at(q) == old(self).expected(q));
                    }
                }
                assert(self.trail_ok());
                assert(self.measure() < old(self).measure());
                assert forall|q: (int, int)| old(self).contains(q) && q != pos(next) implies #[trigger] grid.at(q)
                    == old(grid).at(q) by {
                    assert(old(grid).contains(q));
                }
            }
            StepResult::PathCell(next)
        }
    }

    /// Performs one step: one pop of the open set, or one move of the path
    /// reconstruction. The pop of the goal is not a step of its own: it goes
    /// straight on to the first reconstruction move. Once finished, a step
    /// changes nothing and repeats the outcome.
    pub fn step(&mut self, grid: &mut Grid) -> (r: StepResult)
        requires
            old(self).inv(old(grid)),
        ensures
            final(self).inv(final(grid)),
            final(self).start == old(self).start,
            final(self).goal == old(self).goal,
            final(self).height == old(self).height,
            final(self).width == old(self).width,
            final(self).initial == old(self).initial,
            !old(self).is_finished() ==> final(self).measure() < old(self).measure(),
            old(self).is_finished() ==> final(self).phase == old(self).phase,
            step_report(r, final(self).phase, *old(grid), *final(grid)),
    {
        match self.phase {
            SearchPhase::Finished(found) => {
                if found {
                    StepResult::Found
                } else {
                    StepResult::NotFound
                }
            },
            SearchPhase::Tracing(cur) => self.trace_move(grid, cur),
            SearchPhase::Expanding => self.expand(grid),
        }
    }

    /// Marks `cur`, just popped, as visited unless it holds an endpoint role.
    fn visit(&mut self, grid: &mut Grid, cur: (usize, usize))
        requires
            old(self).shape_ok(old(grid)),
            old(self).scores_ok(),
            old(self).marks_ok(old(grid)),
            old(self).reached@.contains(pos(cur)),
            !old(self).marked@.contains(pos(cur)),
            pos(cur) != pos(old(self).goal),
        ensures
            final(self).shape_ok(final(grid)),
            final(self).scores_ok(),
            final(self).marks_ok(final(grid)),
            final(self).popped@ == old(self).popped@.insert(pos(cur)),
            final(self).open == old(self).open,
            final(self).g_score == old(self).g_score,
            final(self).came_from == old(self).came_from,
            final(self).reached == old(self).reached,
            final(self).marked == old(self).marked,
            final(self).trail == old(self).trail,
            final(self).phase == old(self).phase,
            final(self).start == old(self).start,
            final(self).goal == old(self).goal,
            final(self).height == old(self).height,
            final(self).width == old(self).width,
            final(self).initial == old(self).initial,
            forall|q: (int, int)| old(self).contains(q) && q != pos(cur) ==> #[trigger] final(grid).at(q)
                == old(grid).at(q),
    {
        let t = grid.role(cur);
        if t != CellType::Start && t != CellType::Goal {
            grid.mark(cur, CellType::Visited);
        }
        self.popped = Ghost(self.popped@.insert(pos(cur)));
        proof {
            assert forall|q: (int, int)| self.contains(q) implies #[trigger] grid.at(q) == self.expected(q) by {
                assert(old(grid).contains(q));
                if q != pos(cur) {
                    assert(old(grid).at(q) == old(self).expected(q));
                }
            }
            assert forall|q: (int, int)| old(self).contains(q) && q != pos(cur) implies #[trigger] grid.at(q)
                == old(grid).at(q) by {
                assert(old(grid).contains(q));
            }
        }
    }

    /// What holds of the search state in the middle of expanding `cur`.
    #[verifier::opaque]
    pub open spec fn expanding_at(&self, grid: &Grid, cur: (usize, usize)) -> bool {
        &&& self.shape_ok(grid)
        &&& self.scores_ok()
        &&& self.marks_ok(grid)
        &&& self.frontier_ok()
        &&& self.closed_but(pos(cur))
        &&& self.tracked_but(pos(cur))
        &&& self.phase == SearchPhase::Expanding
        &&& self.reached@.contains(pos(cur))
    }

    /// Relaxes the neighbours of `cur` east, west, south and north, in that order.
    fn relax_neighbours(&mut self, grid: &Grid, cur: (usize, usize))
        requires
            old(self).expanding_at(grid, cur),
            old(self).contains(pos(cur)),
            old(self).initial@.height == old(self).height,
            old(self).initial@.width == old(self).width,
        ensures
            final(self).expanding_at(grid, cur),
            final(self).settled(pos(cur)),
            final(self).popped == old(self).popped,
            final(self).start == old(self).start,
            final(self).goal == old(self).goal,
            final(self).height == old(self).height,
            final(self).width == old(self).width,
            final(self).initial == old(self).initial,
            5 * table_sum(final(self).g_score@) + final(self).open@.len() <= 5 * table_sum(
                old(self).g_score@,
            ) + old(self).open@.len(),
    {
        let ghost cp = pos(cur);
        let ghost dims = (self.initial@.height, self.initial@.width);
        let (r, c) = cur;
        if c + 1 < self.width {
            self.relax(grid, cur, (r, c + 1));
        }
        if c > 0 {
            self.relax(grid, cur, (r, c - 1));
        }
        if r + 1 < self.height {
            self.relax(grid, cur, (r + 1, c));
        }
        if r > 0 {
            self.relax(grid, cur, (r - 1, c));
        }
        assert forall|n: (int, int)| #[trigger] adjacent(cp, n) && self.initial@.passable(n) implies self.reached@.contains(n)
            && self.g(n) <= self.g(cp) + 1 by {
            assert(dims == (self.height, self.width));
            assert(n == (r as int, c as int + 1) || n == (r as int, c as int - 1) || n == (r as int + 1, c as int) || n == (r as int - 1, c as int));
            assert(self.nb_ok(cp, n));
        }
    }

    /// Expands `cur`, just popped: marks it visited and relaxes its neighbours.
    fn expand_from(&mut self, grid: &mut Grid, cur: (usize, usize))
        requires
            old(self).expanding_at(old(grid), cur),
            pos(cur) != pos(old(self).goal),
        ensures
            final(self).inv(final(grid)),
            final(self).phase == SearchPhase::Expanding,
            final(self).start == old(self).start,
            final(self).goal == old(self).goal,
            final(self).height == old(self).height,
            final(self).width == old(self).width,
            final(self).initial == old(self).initial,
            5 * table_sum(final(self).g_score@) + final(self).open@.len() <= 5 * table_sum(
                old(self).g_score@,
            ) + old(self).open@.len(),
            forall|q: (int, int)| old(self).contains(q) && q != pos(cur) ==> #[trigger] final(grid).at(q)
                == old(grid).at(q),
    {
        proof {
            reveal(Search::expanding_at);
        }
        self.visit(grid, cur);
        proof {
            reveal(Search::expanding_at);
        }
        self.relax_neighbours(grid, cur);
        proof {
            reveal(Search::expanding_at);
        }
        assert forall|q: (int, int)| #[trigger] self.reached@.contains(q) && q != (-1int, -1int) implies self.popped@.contains(q)
            || self.open_holds(q) by {
            if q != pos(cur) {
            }
        }
        assert forall|q: (int, int)| #[trigger] self.reached@.contains(q) && q != (-1int, -1int) implies self.open_has(q)
            || self.settled(q) by {
        }
    }

    /// Pops the open set once.
    #[verifier::rlimit(50)]
    fn expand(&mut self, grid: &mut Grid) -> (r: StepResult)
        requires
            old(self).inv(old(grid)),
            old(self).phase == SearchPhase::Expanding,
        ensures
            final(self).inv(final(grid)),
            final(self).start == old(self).start,
            final(self).goal == old(self).goal,
            final(self).height == old(self).height,
            final(self).width == old(self).width,
            final(self).initial == old(self).initial,
            final(self).measure() < old(self).measure(),
            step_report(r, final(self).phase, *old(grid), *final(grid)),
    {
        proof {
            crate::paths::lemma_table_sum_nonneg(self.g_score@);
        }
        if self.open.len() == 0 {
            proof {
                if reachable(self.initial@, pos(self.start), pos(self.goal)) {
                    let w = choose|w: Seq<(int, int)>| walk_between(self.initial@, w, pos(self.start), pos(self.goal));
                    self.lemma_walk_reached(w, w.len() - 1);
                }
                assert forall|q: (int, int)| #[trigger] reachable(self.initial@, pos(self.start), q) implies self.popped@.contains(q) by {
                    let w = choose|w: Seq<(int, int)>| walk_between(self.initial@, w, pos(self.start), q);
                    self.lemma_walk_reached(w, w.len() - 1);
                    assert(!self.open_holds(q));
                }
            }
            self.phase = SearchPhase::Finished(false);
            return StepResult::NotFound;
        }
        let entry = pop_frontier(&mut self.open);
        let cur = entry.position;
        let ghost cp = pos(cur);
        if cur.0 == self.goal.0 && cur.1 == self.goal.1 {
            let goal = self.goal;
            let ghost t = seq![pos(goal)];
            self.trail = Ghost(t);
            self.phase = SearchPhase::Tracing(goal);
            proof {
                assert(is_walk(self.initial@, t));
                lemma_positions_bound(self.height as int, self.width as int, self.reached@);
                assert(self.g(pos(goal)) < self.height * self.width);
                assert forall|w: Seq<(int, int)>| #[trigger] walk_between(self.initial@, w, pos(self.start), pos(self.goal))
                    implies self.g(pos(self.goal)) <= w.len() - 1 by {
                    lemma_goal_bound(*old(self), entry, w, 0);
                }
                assert(self.trail_ok());
            }
            return self.trace_move(grid, goal);
        }
        proof {
            assert(self.reached@.contains(cp));
            assert(self.frontier_ok());
            assert forall|q: (int, int)| #[trigger] self.reached@.contains(q) && q != cp implies self.open_has(q)
                || self.settled(q) by {
                assert(old(self).reached@.contains(q));
                if !old(self).open_has(q) {
                    assert(old(self).settled(q));
                }
            }
            assert forall|q: (int, int)| #[trigger] self.reached@.contains(q) && q != cp implies self.popped@.contains(q)
                || self.open_holds(q) by {
                assert(old(self).reached@.contains(q));
                if !self.popped@.contains(q) {
                    let pr = choose|pr: int| #[trigger] has_entry(old(self).open@, q, pr);
                    assert(has_entry(self.open@, q, pr));
                }
            }
        }
        proof {
            reveal(Search::expanding_at);
        }
        self.expand_from(grid, cur);
        StepResult::Expanded(cur)
    }
}

impl Search {
    /// Whether the search has finished.
    pub fn finished(&self) -> (r: bool)
        ensures
            r == self.is_finished(),
    {
        match self.phase {
            SearchPhase::Finished(_) => true,
            _ => false,
        }
    }

    /// Whether the search found a path; false while it is still running.
    pub fn found(&self) -> (r: bool)
        ensures
            r == (self.phase == SearchPhase::Finished(true)),
    {
        match self.phase {
            SearchPhase::Finished(f) => f,
            _ => false,
        }
    }

    /// Every reached position can be reached from the start by a walk, the one
    /// that its chain of predecessors traces.
    pub proof fn lemma_reached_reachable(&self, q: (int, int))
        requires
            self.initial@.passable(pos(self.start)),
            self.scores_ok(),
            self.reached@.contains(q),
        ensures
            reachable(self.initial@, pos(self.start), q),
        decreases self.g(q),
    {
        if q == pos(self.start) {
            assert(walk_between(self.initial@, seq![q], pos(self.start), q));
        } else {
            let c = self.came(q);
            self.lemma_reached_reachable(c);
            let w = choose|w: Seq<(int, int)>| walk_between(self.initial@, w, pos(self.start), c);
            let v = w.push(q);
            assert forall|i: int| 0 <= i < v.len() - 1 implies #[trigger] adjacent(v[i], v[i + 1]) by {
                if i < w.len() - 1 {
                    assert(adjacent(w[i], w[i + 1]));
                }
            }
            assert forall|i: int| 0 <= i < v.len() implies self.initial@.passable(#[trigger] v[i]) by {
                if i < w.len() {
                    assert(v[i] == w[i]);
                }
            }
            assert(walk_between(self.initial@, v, pos(self.start), q));
        }
    }

    /// A finished search has done to the grid what `search_outcome` describes;
    /// when it found a path, the reconstructed walk is a shortest one and its
    /// number of steps is the goal's score.
    pub proof fn lemma_outcome(&self, grid: &Grid, found: bool)
        requires
            self.inv(grid),
            self.phase == SearchPhase::Finished(found),
        ensures
            search_outcome(self.initial@, *grid, pos(self.start), pos(self.goal), found),
            found ==> shortest_walk(self.initial@, self.trail@, pos(self.start), pos(self.goal)),
            found ==> self.trail@.len() - 1 == self.g(pos(self.goal)),
    {
        let before = self.initial@;
        self.lemma_walls_agree(grid);
        assert(self.contains(pos(self.goal)));
        assert forall|q: (int, int)| #[trigger] before.contains(q) && grid.at(q) == CellType::Visited && before.at(q)
            != CellType::Visited implies reachable(before, pos(self.start), q) by {
            assert(self.contains(q));
            assert(self.popped@.contains(q));
            self.lemma_reached_reachable(q);
        }
        if !found {
            assert forall|q: (int, int)| #[trigger] before.contains(q) && reachable(before, pos(self.start), q)
                && before.at(q) == CellType::Empty implies grid.at(q) == CellType::Visited by {
                assert(self.contains(q));
            }
        }
        assert forall|q: (int, int)| #[trigger] before.contains(q) implies {
            ||| grid.at(q) == before.at(q)
            ||| grid.at(q) == CellType::Visited && before.at(q) != CellType::Wall && !is_endpoint(before.at(q))
            ||| grid.at(q) == CellType::Path && before.at(q) != CellType::Wall
        } by {
            assert(self.contains(q));
            if self.marked@.contains(q) || self.popped@.contains(q) {
                assert(self.reached@.contains(q));
            }
        }
        if !found {
            assert forall|q: (int, int)| #[trigger] before.contains(q) && grid.at(q) == CellType::Path implies before.at(
                q,
            ) == CellType::Path by {
                assert(self.contains(q));
            }
        } else {
            let w = self.trail@;
            assert(shortest_walk(before, w, pos(self.start), pos(self.goal)));
            assert forall|i: int| 1 <= i < w.len() - 1 implies grid.at(#[trigger] w[i]) == CellType::Path by {
                assert(before.passable(w[i]));
                assert(self.contains(w[i]));
                assert(self.marked@.contains(w[i]));
            }
            assert forall|q: (int, int)| #[trigger] before.contains(q) && grid.at(q) == CellType::Path && before.at(q)
                != CellType::Path implies exists|i: int| 1 <= i < w.len() - 1 && w[i] == q by {
                assert(self.contains(q));
                assert(self.marked@.contains(q));
            }
        }
    }
}

/// Runs a whole search from `start` to `goal` on `grid`, marking visited and
/// path cells as it goes, and returns whether a path exists; the path marked
/// is a shortest one. When `start` and `goal` coincide it reports a path at
/// once and leaves the grid as it was.
pub fn run_search(grid: &mut Grid, start: (usize, usize), goal: (usize, usize)) -> (found: bool)
    requires
        old(grid).wf(),
        old(grid).passable(pos(start)),
        old(grid).passable(pos(goal)),
        old(grid).height * old(grid).width + old(grid).height + old(grid).width <= usize::MAX,
    ensures
        search_outcome(*old(grid), *final(grid), pos(start), pos(goal), found),
        start == goal ==> found && forall|q: (int, int)| old(grid).contains(q) ==> #[trigger] final(grid).at(q)
            == old(grid).at(q),
{
    let mut s = Search::new(grid, start, goal);
    while !s.finished()
        invariant
            s.inv(grid),
            s.initial@ == *old(grid),
            s.start == start,
            s.goal == goal,
            start == goal ==> s.phase == SearchPhase::Finished(true),
            start == goal ==> forall|q: (int, int)| old(grid).contains(q) ==> #[trigger] grid.at(q) == old(grid).at(q),
        decreases s.measure(),
    {
        proof {
            crate::paths::lemma_table_sum_nonneg(s.g_score@);
            assert(s.height * s.width >= 0) by (nonlinear_arith);
        }
        s.step(grid);
        proof {
            crate::paths::lemma_table_sum_nonneg(s.g_score@);
        }
    }
    let found = s.found();
    proof {
        s.lemma_outcome(grid, found);
    }
    found
}

/// With every in-bounds neighbour of the goal a wall, and the start elsewhere,
/// no walk reaches the goal: a finished search reports no path, marks no
/// cell as path that was not one before, and leaves the goal cell as it was.
pub proof fn lemma_enclosed_goal(
    before: Grid,
    after: Grid,
    start: (int, int),
    goal: (int, int),
    found: bool,
)
    requires
        before.wf(),
        start != goal,
        forall|n: (int, int)| #[trigger] adjacent(goal, n) && before.contains(n) ==> before.at(n) == CellType::Wall,
        search_outcome(before, after, start, goal, found),
    ensures
        !found,
        forall|q: (int, int)| #[trigger] before.contains(q) && after.at(q) == CellType::Path ==> before.at(q)
            == CellType::Path,
        after.at(goal) == before.at(goal),
{
    if reachable(before, start, goal) {
        let w = choose|w: Seq<(int, int)>| walk_between(before, w, start, goal);
        let k = w.len() - 2;
        assert(adjacent(w[k], w[k + 1]));
        assert(before.passable(w[k]));
        assert(adjacent(goal, w[k]));
    }
}

/// When the goal is popped, with `e` the entry of least priority, its score
/// is no more than the length of any walk `w` from the start to the goal: an
/// entry for some cell of `w` with priority at most that length is still open,
/// or the scores along `w` already bound the goal's.
proof fn lemma_goal_bound(s: Search, e: State, w: Seq<(int, int)>, k: int)
    requires
        s.shape_ok(&s.initial@),
        s.scores_ok(),
        s.frontier_ok(),
        s.closed_but((-1, -1)),
        s.open@.contains(e),
        pos(e.position) == pos(s.goal),
        forall|j: int| 0 <= j < s.open@.len() ==> e.priority <= #[trigger] s.open@[j].priority,
        walk_between(s.initial@, w, pos(s.start), pos(s.goal)),
        0 <= k < w.len(),
        s.reached@.contains(w[k]),
        s.g(w[k]) <= k,
    ensures
        s.g(pos(s.goal)) <= w.len() - 1,
    decreases w.len() - k,
{
    let last = w.len() - 1;
    let je = choose|j: int| 0 <= j < s.open@.len() && s.open@[j] == e;
    assert(s.open@[je] == e);
    if k == last {
    } else if s.open_has(w[k]) {
        crate::paths::lemma_manhattan_walk(s.initial@, w, k);
        let i = choose|i: int| 0 <= i < s.open@.len() && pos(#[trigger] s.open@[i].position) == w[k]
            && s.open@[i].priority == s.g(w[k]) + s.h(w[k]);
        assert(e.priority <= s.open@[i].priority);
    } else {
        assert(s.settled(w[k]));
        assert(adjacent(w[k], w[k + 1]));
        assert(s.initial@.passable(w[k + 1]));
        lemma_goal_bound(s, e, w, k + 1);
    }
}

} // verus!
