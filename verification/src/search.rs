//! Best-first search: the queue of pending visits, the graphs that can be
//! searched, the exploration loop and the search for a goal.

pub mod astar;
pub mod explore;
pub mod graph;
pub mod queue;
