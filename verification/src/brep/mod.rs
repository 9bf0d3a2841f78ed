//! Boundary-representation topology: polygonal faces over welded vertex ids,
//! shared-edge discovery, manifold checks and consistent face orientation.
//!
//! Vertex positions and the geometric steps (welding tolerance, signed volume,
//! triangulation) live with the renderer; this module holds the combinatorial
//! structure those steps produce and consume.

pub mod solid;
pub mod validate;
pub mod weld;
