//! The navigation mesh, as far as it is decided by comparisons and not by
//! arithmetic on coordinates: the funnel that pulls a path tight, and the
//! tests on triangles.

pub mod funnel;
pub mod mesh;
