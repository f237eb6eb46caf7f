//! Deterministic crowd-simulation core: grid maps, best-first search, flow
//! fields, the hierarchical pathfinder, the funnel of the navigation mesh
//! and the bookkeeping of the tick driver.

pub mod driver;
pub mod flow;
pub mod grid;
pub mod hpa;
pub mod navmesh;
pub mod search;
