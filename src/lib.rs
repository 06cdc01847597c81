//! Geometry kernel for regular N-dimensional polytopes.
//!
//! The library builds the combinatorial structure of the hypercube, the
//! simplex and the orthoplex (vertex counts, integer coordinates where they
//! exist, edge lists) and decides which plane rotations of a frame apply and
//! where each vertex's depth is read from. Every function is proved against
//! its contract; the floating-point arithmetic lives with the host.
pub mod kind;
pub mod polytope;
pub mod rotation;
pub mod shape;

pub use kind::{parse_shape_kind, ShapeError, ShapeKind};
pub use polytope::{
    cube_coordinates, cube_edges, orthoplex_coordinates, orthoplex_edges, power_of_two,
    simplex_edges,
};
pub use rotation::{depth_source, plan_rotations, whole_vertices, DepthSource, PlaneRotation};
pub use shape::{build_shape, ShapeData, ShapeView};
