//! Triangle meshes of implicit shapes, kept in an octree.
//!
//! A shape is known only by a signed distance estimate. The library turns grids
//! of such distances into triangle meshes ([`nets`], [`buffer`]), and keeps track of which
//! box of space has a mesh, which one still waits for it and which one is to be
//! refined ([`mesh`]). Whatever needs a graphics card, a thread or floating point
//! arithmetic is left to the caller; floating point numbers pass through the
//! library as bit patterns ([`single`]).

pub mod accounts;
pub mod buffer;
pub mod cell;
pub mod event;
pub mod exchange;
pub mod grid;
pub mod laws;
pub mod mesh;
pub mod nets;
pub mod octree;
pub mod outcome;
pub mod places;
pub mod single;
pub mod span;
pub mod surface;
pub mod symmetry;
pub mod threads;
