//! Interactive grid pathfinding: a grid model with placement rules, a stepwise
//! A* search engine, and the session state machine that drives them.

pub mod types;
pub mod grid;
pub mod paths;
pub mod astar;
pub mod session;
pub mod render;
