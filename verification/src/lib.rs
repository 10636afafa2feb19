//! The simulation core of an edge-drawing mesh puzzle. A player connects
//! edges of a triangulated mesh; a triangle whose three edges are connected
//! unlocks, and its edges and vertices become permanent.
//!
//! - `geometry` reads a mesh description and indexes it: for each edge its
//!   triangles, for each triangle its edges, for each vertex its edges. It
//!   also says, in integers, what is drawn of a puzzle.
//! - `puzzle_state` holds the state of a session and the operations that
//!   connect and disconnect edges.
//! - `edge` and `ordered` hold what both use: canonical edges, and vectors
//!   used as ordered sets.
//!
//! Coordinates are kept as the tokens of the description; their values,
//! distances and sizes are floating-point work that is left to the caller.

pub mod edge;
pub mod geometry;
pub mod ordered;
pub mod puzzle_state;
