//! Walks on a grid, reachability, distances, and the counting facts the
//! search engine relies on.

use vstd::prelude::*;
use vstd::set_lib::*;
use crate::grid::Grid;

verus! {

/// A position as a pair of mathematical integers.
pub open spec fn pos(p: (usize, usize)) -> (int, int) {
    (p.0 as int, p.1 as int)
}

/// `a` and `b` differ by one step up, down, left or right.
pub open spec fn adjacent(a: (int, int), b: (int, int)) -> bool {
    ||| a.0 == b.0 && (a.1 == b.1 + 1 || b.1 == a.1 + 1)
    ||| a.1 == b.1 && (a.0 == b.0 + 1 || b.0 == a.0 + 1)
}

/// `w` is a nonempty sequence of passable cells, each adjacent to the next.
pub open spec fn is_walk(g: Grid, w: Seq<(int, int)>) -> bool {
    &&& w.len() > 0
    &&& forall|i: int| 0 <= i < w.len() ==> g.passable(#[trigger] w[i])
    &&& forall|i: int| 0 <= i < w.len() - 1 ==> #[trigger] adjacent(w[i], w[i + 1])
}

/// `w` is a walk on `g` from `a` to `b`.
pub open spec fn walk_between(g: Grid, w: Seq<(int, int)>, a: (int, int), b: (int, int)) -> bool {
    is_walk(g, w) && w[0] == a && w.last() == b
}

/// Some walk on `g` leads from `a` to `b`.
pub open spec fn reachable(g: Grid, a: (int, int), b: (int, int)) -> bool {
    exists|w: Seq<(int, int)>| walk_between(g, w, a, b)
}

pub open spec fn abs_diff(x: int, y: int) -> int {
    if x >= y {
        x - y
    } else {
        y - x
    }
}

/// The Manhattan distance `|a.row - b.row| + |a.col - b.col|`.
pub open spec fn manhattan(a: (int, int), b: (int, int)) -> int {
    abs_diff(a.0, b.0) + abs_diff(a.1, b.1)
}

/// Every in-bounds position of a `h x w` grid.
pub open spec fn positions(h: int, w: int) -> Set<(int, int)> {
    Set::new(|p: (int, int)| 0 <= p.0 < h && 0 <= p.1 < w)
}

/// A set of positions inside a `h x w` grid is finite and holds at most `h * w` of them.
pub proof fn lemma_positions_bound(h: int, w: int, s: Set<(int, int)>)
    requires
        0 <= h,
        0 <= w,
        s.subset_of(positions(h, w)),
    ensures
        s.finite(),
        s.len() <= h * w,
{
    lemma_positions_len(h, w);
    lemma_len_subset(s, positions(h, w));
}

proof fn lemma_positions_len(h: int, w: int)
    requires
        0 <= h,
        0 <= w,
    ensures
        positions(h, w).finite(),
        positions(h, w).len() <= h * w,
    decreases h,
{
    if h == 0 {
        assert(positions(0, w) =~= Set::<(int, int)>::empty());
    } else {
        lemma_positions_len(h - 1, w);
        let f = |c: int| (h - 1, c);
        let row = set_int_range(0, w).map(f);
        lemma_int_range(0, w);
        lemma_map_size_bound(set_int_range(0, w), row, f);
        assert(positions(h, w) =~= positions(h - 1, w).union(row)) by {
            assert forall|p: (int, int)| #[trigger] positions(h, w).contains(p) implies positions(
                h - 1,
                w,
            ).union(row).contains(p) by {
                if p.0 == h - 1 {
                    assert(set_int_range(0, w).contains(p.1));
                    assert(f(p.1) == p);
                }
            }
        }
        lemma_len_union(positions(h - 1, w), row);
        assert((h - 1) * w + w == h * w) by (nonlinear_arith);
    }
}

/// Sum of a row of scores.
pub open spec fn row_sum(s: Seq<usize>) -> int
    decreases s.len(),
{
    if s.len() == 0 {
        0
    } else {
        row_sum(s.drop_last()) + s.last() as int
    }
}

/// Sum of a table of scores.
pub open spec fn table_sum(t: Seq<Vec<usize>>) -> int
    decreases t.len(),
{
    if t.len() == 0 {
        0
    } else {
        table_sum(t.drop_last()) + row_sum(t.last()@)
    }
}

pub proof fn lemma_row_sum_nonneg(s: Seq<usize>)
    ensures
        row_sum(s) >= 0,
    decreases s.len(),
{
    if s.len() > 0 {
        lemma_row_sum_nonneg(s.drop_last());
    }
}

pub proof fn lemma_table_sum_nonneg(t: Seq<Vec<usize>>)
    ensures
        table_sum(t) >= 0,
    decreases t.len(),
{
    if t.len() > 0 {
        lemma_table_sum_nonneg(t.drop_last());
        lemma_row_sum_nonneg(t.last()@);
    }
}

pub proof fn lemma_row_sum_update(s: Seq<usize>, i: int, v: usize)
    requires
        0 <= i < s.len(),
    ensures
        row_sum(s.update(i, v)) == row_sum(s) - s[i] + v,
    decreases s.len(),
{
    if i == s.len() - 1 {
        assert(s.update(i, v).drop_last() =~= s.drop_last());
    } else {
        lemma_row_sum_update(s.drop_last(), i, v);
        assert(s.update(i, v).drop_last() =~= s.drop_last().update(i, v));
    }
}

pub proof fn lemma_table_sum_update(t: Seq<Vec<usize>>, r: int, row: Vec<usize>)
    requires
        0 <= r < t.len(),
    ensures
        table_sum(t.update(r, row)) == table_sum(t) - row_sum(t[r]@) + row_sum(row@),
    decreases t.len(),
{
    if r == t.len() - 1 {
        assert(t.update(r, row).drop_last() =~= t.drop_last());
    } else {
        lemma_table_sum_update(t.drop_last(), r, row);
        assert(t.update(r, row).drop_last() =~= t.drop_last().update(r, row));
    }
}

/// The Manhattan distance from a cell of a walk to its end is at most the
/// number of steps left.
pub proof fn lemma_manhattan_walk(g: Grid, w: Seq<(int, int)>, k: int)
    requires
        is_walk(g, w),
        0 <= k < w.len(),
    ensures
        manhattan(w[k], w.last()) <= w.len() - 1 - k,
    decreases w.len() - k,
{
    if k < w.len() - 1 {
        lemma_manhattan_walk(g, w, k + 1);
        assert(adjacent(w[k], w[k + 1]));
    }
}

} // verus!
