//! Procedural voxel landscape core.
//!
//! A deterministic noise field decides which unit cubes of a fixed-size chunk
//! volume are solid; a face mesher turns the resulting solid/empty volume into
//! the set of exposed surface quads, grouped by the six cardinal directions;
//! and an orientation mapper places each quad in world space.  Rendering,
//! windowing and input belong to the surrounding shell, not to this crate.

pub mod mesh;
pub mod mesher;
pub mod orientation;
pub mod quads;
pub mod voxel;
