//! Core data types shared by the grid, the search engine and the renderer.

use vstd::prelude::*;

verus! {

/// The role of one grid cell; a cell holds exactly one role at a time.
#[derive(Clone, Copy, PartialEq, Eq, Structural, Debug)]
pub enum CellType {
    Empty,
    Wall,
    Start,
    Goal,
    Visited,
    Path,
}

/// A single cell of the grid.
#[derive(Clone, Copy, PartialEq, Eq, Structural, Debug)]
pub struct Cell {
    pub cell_type: CellType,
}

/// Which kind of element a click places.
#[derive(Clone, Copy, PartialEq, Eq, Structural, Debug)]
pub enum PlacementMode {
    Wall,
    Start,
    Goal,
}

/// An open-set entry of the search: a position and its priority `f = g + h`.
#[derive(Clone, Copy, PartialEq, Eq, Debug)]
pub struct State {
    pub position: (usize, usize),
    pub priority: usize,
}

/// Errors reported by the grid and the session.
#[derive(Clone, Copy, PartialEq, Eq, Structural, Debug)]
pub enum PathError {
    /// A coordinate outside the grid was used.
    OutOfBounds,
    /// A run was requested without both start and goal set.
    InvalidRunRequest,
    /// The search exhausted its open set without reaching the goal.
    NoPathFound,
}

} // verus!
