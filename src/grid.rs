//! The grid model and its role-transition rules.

use vstd::prelude::*;
use crate::types::{Cell, CellType, PathError, PlacementMode};

verus! {

/// A fixed-size `height x width` grid of cells, indexed by `(row, col)`.
pub struct Grid {
    pub height: usize,
    pub width: usize,
    pub cells: Vec<Vec<Cell>>,
}

/// The role a placement of `mode` writes.
pub open spec fn mode_role(mode: PlacementMode) -> CellType {
    match mode {
        PlacementMode::Wall => CellType::Wall,
        PlacementMode::Start => CellType::Start,
        PlacementMode::Goal => CellType::Goal,
    }
}

/// What a reset of search marks does to one role.
pub open spec fn cleared(t: CellType) -> CellType {
    match t {
        CellType::Visited | CellType::Path => CellType::Empty,
        _ => t,
    }
}

impl Grid {
    /// The grid has `height` rows of `width` cells each.
    pub open spec fn wf(&self) -> bool {
        &&& self.cells@.len() == self.height
        &&& forall|r: int| 0 <= r < self.height ==> #[trigger] self.cells@[r]@.len() == self.width
    }

    pub open spec fn contains(&self, p: (int, int)) -> bool {
        0 <= p.0 < self.height && 0 <= p.1 < self.width
    }

    /// The role of the cell at `p`.
    pub open spec fn at(&self, p: (int, int)) -> CellType {
        self.cells@[p.0]@[p.1].cell_type
    }

    /// `p` lies in the grid and is not a wall.
    pub open spec fn passable(&self, p: (int, int)) -> bool {
        self.contains(p) && self.at(p) != CellType::Wall
    }

    /// At most one cell holds role `t`.
    pub open spec fn unique_role(&self, t: CellType) -> bool {
        forall|p: (int, int), q: (int, int)|
            #![trigger self.at(p), self.at(q)]
            self.contains(p) && self.contains(q) && self.at(p) == t && self.at(q) == t ==> p == q
    }

    /// Same dimensions as `other`.
    pub open spec fn same_shape(&self, other: &Grid) -> bool {
        self.height == other.height && self.width == other.width
    }

    /// The role of `q` after placing `mode` at `p` on this grid.
    pub open spec fn placed(&self, p: (int, int), mode: PlacementMode, q: (int, int)) -> CellType {
        let cur = self.at(p);
        match mode {
            PlacementMode::Wall => if q == p {
                match cur {
                    CellType::Wall => CellType::Empty,
                    CellType::Empty => CellType::Wall,
                    _ => cur,
                }
            } else {
                self.at(q)
            },
            _ => if cur == CellType::Wall {
                self.at(q)
            } else if q == p {
                mode_role(mode)
            } else if self.at(q) == mode_role(mode) {
                CellType::Empty
            } else {
                self.at(q)
            },
        }
    }

    /// `after` is this grid with `mode` placed at `p`.
    pub open spec fn placement_gives(&self, p: (int, int), mode: PlacementMode, after: &Grid) -> bool {
        &&& after.wf()
        &&& after.same_shape(self)
        &&& forall|q: (int, int)| #[trigger] self.contains(q) ==> after.at(q) == self.placed(p, mode, q)
    }

    /// `after` is this grid with every search mark cleared.
    pub open spec fn reset_gives(&self, after: &Grid) -> bool {
        &&& after.wf()
        &&& after.same_shape(self)
        &&& forall|q: (int, int)| #[trigger] self.contains(q) ==> after.at(q) == cleared(self.at(q))
    }

    /// A grid of `height` rows and `width` columns, every cell empty.
    pub fn new(height: usize, width: usize) -> (g: Grid)
        ensures
            g.wf(),
            g.height == height,
            g.width == width,
            forall|q: (int, int)| #[trigger] g.contains(q) ==> g.at(q) == CellType::Empty,
    {
        let mut cells: Vec<Vec<Cell>> = Vec::new();
        let mut r: usize = 0;
        while r < height
            invariant
                r <= height,
                cells@.len() == r,
                forall|i: int| 0 <= i < r ==> #[trigger] cells@[i]@.len() == width,
                forall|i: int, j: int| 0 <= i < r && 0 <= j < width ==>
                    (#[trigger] cells@[i]@[j]).cell_type == CellType::Empty,
            decreases height - r,
        {
            let mut row: Vec<Cell> = Vec::new();
            let mut c: usize = 0;
            while c < width
                invariant
                    c <= width,
                    row@.len() == c,
                    forall|j: int| 0 <= j < c ==> (#[trigger] row@[j]).cell_type == CellType::Empty,
                decreases width - c,
            {
                row.push(Cell { cell_type: CellType::Empty });
                c += 1;
            }
            cells.push(row);
            r += 1;
        }
        Grid { height, width, cells }
    }

    /// Whether `p` lies inside the grid.
    pub fn in_bounds(&self, p: (usize, usize)) -> (r: bool)
        ensures
            r == self.contains((p.0 as int, p.1 as int)),
    {
        p.0 < self.height && p.1 < self.width
    }

    /// The role of the cell at `p`.
    pub fn role(&self, p: (usize, usize)) -> (t: CellType)
        requires
            self.wf(),
            self.contains((p.0 as int, p.1 as int)),
        ensures
            t == self.at((p.0 as int, p.1 as int)),
    {
        self.cells[p.0][p.1].cell_type
    }

    /// Writes role `t` at `p`, leaving every other cell as it was.
    pub(crate) fn mark(&mut self, p: (usize, usize), t: CellType)
        requires
            old(self).wf(),
            old(self).contains((p.0 as int, p.1 as int)),
        ensures
            final(self).wf(),
            final(self).same_shape(old(self)),
            forall|q: (int, int)| #[trigger] old(self).contains(q) ==> final(self).at(q) == if q == (p.0 as int, p.1 as int) {
                t
            } else {
                old(self).at(q)
            },
    {
        self.cells[p.0][p.1] = Cell { cell_type: t };
        assert forall|q: (int, int)| #[trigger] old(self).contains(q) implies self.at(q) == if q == (p.0 as int, p.1 as int) {
            t
        } else {
            old(self).at(q)
        } by {
            if q.0 != p.0 {
                assert(self.cells@[q.0] == old(self).cells@[q.0]);
            }
        }
    }
}

impl Grid {
    /// Every cell whose role is `a` or `b` becomes empty; other cells keep their role.
    fn clear_roles(&mut self, a: CellType, b: CellType)
        requires
            old(self).wf(),
        ensures
            final(self).wf(),
            final(self).same_shape(old(self)),
            forall|q: (int, int)| #[trigger] old(self).contains(q) ==> final(self).at(q) == if old(self).at(q) == a
                || old(self).at(q) == b {
                CellType::Empty
            } else {
                old(self).at(q)
            },
    {
        let ghost before = *self;
        let mut r: usize = 0;
        while r < self.height
            invariant
                self.wf(),
                self.same_shape(&before),
                r <= self.height,
                forall|q: (int, int)| #[trigger] before.contains(q) ==> self.at(q) == if q.0 < r && (before.at(q) == a
                    || before.at(q) == b) {
                    CellType::Empty
                } else {
                    before.at(q)
                },
            decreases self.height - r,
        {
            let mut c: usize = 0;
            while c < self.width
                invariant
                    self.wf(),
                    self.same_shape(&before),
                    r < self.height,
                    c <= self.width,
                    forall|q: (int, int)| #[trigger] before.contains(q) ==> self.at(q) == if (q.0 < r || (q.0 == r
                        && q.1 < c)) && (before.at(q) == a || before.at(q) == b) {
                        CellType::Empty
                    } else {
                        before.at(q)
                    },
                decreases self.width - c,
            {
                let t = self.cells[r][c].cell_type;
                let ghost mid = *self;
                if t == a || t == b {
                    self.mark((r, c), CellType::Empty);
                }
                assert forall|q: (int, int)| #[trigger] before.contains(q) implies self.at(q) == if (q.0 < r || (q.0
                    == r && q.1 < c + 1)) && (before.at(q) == a || before.at(q) == b) {
                    CellType::Empty
                } else {
                    before.at(q)
                } by {
                    assert(mid.contains(q));
                }
                c += 1;
            }
            r += 1;
        }
    }

    /// Places `mode` at `p`. A wall toggles: a wall becomes empty, an empty cell
    /// becomes a wall, any other role stays. A start or goal never overwrites a
    /// wall; otherwise any other cell holding that role is cleared first, so the
    /// role stays unique. A position outside the grid is refused.
    pub fn set_role(&mut self, p: (usize, usize), mode: PlacementMode) -> (r: Result<(), PathError>)
        requires
            old(self).wf(),
        ensures
            r is Err <==> !old(self).contains((p.0 as int, p.1 as int)),
            r is Err ==> r == Err::<(), PathError>(PathError::OutOfBounds) && *final(self) == *old(self),
            r is Ok ==> old(self).placement_gives((p.0 as int, p.1 as int), mode, final(self)),
    {
        if !self.in_bounds(p) {
            return Err(PathError::OutOfBounds);
        }
        let ghost pp = (p.0 as int, p.1 as int);
        let cur = self.role(p);
        match mode {
            PlacementMode::Wall => {
                if cur == CellType::Wall {
                    self.mark(p, CellType::Empty);
                } else if cur == CellType::Empty {
                    self.mark(p, CellType::Wall);
                }
            },
            _ => {
                if cur != CellType::Wall {
                    let t = if mode == PlacementMode::Start {
                        CellType::Start
                    } else {
                        CellType::Goal
                    };
                    let ghost before = *self;
                    self.clear_roles(t, t);
                    let ghost mid = *self;
                    self.mark(p, t);
                    assert forall|q: (int, int)| #[trigger] before.contains(q) implies self.at(q) == before.placed(
                        pp,
                        mode,
                        q,
                    ) by {
                        assert(mid.contains(q));
                    }
                }
            },
        }
        assert(old(self).placement_gives(pp, mode, self));
        Ok(())
    }

    /// Clears every search mark: visited and path cells become empty; walls,
    /// start and goal stay.
    pub fn reset_search_marks(&mut self)
        requires
            old(self).wf(),
        ensures
            old(self).reset_gives(final(self)),
    {
        self.clear_roles(CellType::Visited, CellType::Path);
    }

    /// `[q]` when `q` is a passable position, else nothing.
    pub open spec fn if_passable(&self, q: (int, int)) -> Seq<(usize, usize)> {
        if self.passable(q) {
            seq![(q.0 as usize, q.1 as usize)]
        } else {
            Seq::empty()
        }
    }

    /// The passable neighbours of `p`: east, west, south, north, in that order.
    pub open spec fn neighbours(&self, p: (int, int)) -> Seq<(usize, usize)> {
        self.if_passable((p.0, p.1 + 1)) + self.if_passable((p.0, p.1 - 1)) + self.if_passable((p.0 + 1, p.1))
            + self.if_passable((p.0 - 1, p.1))
    }

    /// The in-bounds, non-wall neighbours of `p`, in the order east, west,
    /// south, north.
    pub fn neighbors4(&self, p: (usize, usize)) -> (v: Vec<(usize, usize)>)
        requires
            self.wf(),
            self.contains((p.0 as int, p.1 as int)),
        ensures
            v@ == self.neighbours((p.0 as int, p.1 as int)),
    {
        let (r, c) = p;
        let ghost (ri, ci) = (r as int, c as int);
        let mut v: Vec<(usize, usize)> = Vec::new();
        if c + 1 < self.width && self.role((r, c + 1)) != CellType::Wall {
            v.push((r, c + 1));
        }
        assert(v@ =~= self.if_passable((ri, ci + 1)));
        if c > 0 && self.role((r, c - 1)) != CellType::Wall {
            v.push((r, c - 1));
        }
        assert(v@ =~= self.if_passable((ri, ci + 1)) + self.if_passable((ri, ci - 1)));
        if r + 1 < self.height && self.role((r + 1, c)) != CellType::Wall {
            v.push((r + 1, c));
        }
        assert(v@ =~= self.if_passable((ri, ci + 1)) + self.if_passable((ri, ci - 1)) + self.if_passable((ri + 1, ci)));
        if r > 0 && self.role((r - 1, c)) != CellType::Wall {
            v.push((r - 1, c));
        }
        assert(v@ =~= self.neighbours((ri, ci)));
        v
    }
}

/// Clearing the search marks twice in a row leaves the grid exactly as
/// clearing them once did.
pub proof fn lemma_reset_idempotent(a: Grid, b: Grid, c: Grid)
    requires
        a.wf(),
        a.reset_gives(&b),
        b.reset_gives(&c),
    ensures
        c.same_shape(&b),
        forall|q: (int, int)| #[trigger] a.contains(q) ==> c.at(q) == b.at(q),
{
    assert forall|q: (int, int)| #[trigger] a.contains(q) implies c.at(q) == b.at(q) by {
        assert(b.contains(q));
    }
}

/// Placing a wall twice on an empty cell gives back the grid one started with;
/// placing a wall on a start or goal cell changes nothing.
pub proof fn lemma_wall_toggle(a: Grid, b: Grid, c: Grid, p: (int, int))
    requires
        a.wf(),
        a.contains(p),
        a.placement_gives(p, PlacementMode::Wall, &b),
        b.placement_gives(p, PlacementMode::Wall, &c),
    ensures
        a.at(p) == CellType::Empty ==> c.at(p) == CellType::Empty && forall|q: (int, int)| #[trigger] a.contains(q)
            ==> c.at(q) == a.at(q),
        a.at(p) == CellType::Start || a.at(p) == CellType::Goal ==> forall|q: (int, int)| #[trigger] a.contains(q)
            ==> b.at(q) == a.at(q),
{
    assert(b.contains(p));
    if a.at(p) == CellType::Empty {
        assert forall|q: (int, int)| #[trigger] a.contains(q) implies c.at(q) == a.at(q) by {
            assert(b.contains(q));
        }
    }
}

} // verus!
