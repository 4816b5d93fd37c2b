//! The discrete core of a two-dimensional Verlet physics engine.
//!
//! A physics engine of this kind computes on scalars: it integrates positions,
//! measures distances and projects shapes onto axes. Around that arithmetic it
//! takes decisions that need no arithmetic at all, only comparisons, searches
//! and bookkeeping. Those decisions are this library:
//!
//! - `geometry`: axis-aligned boxes, their overlap and their union;
//! - `sorting`: the stable order of keys;
//! - `kd_tree`: the spatial index of the static colliders and its overlap query;
//! - `ray`: the ray query of the index and the search for the nearest hit;
//! - `collider`: collision layers, the choice of the shape test and of the
//!   contact axis, and the split of a correction between two bodies;
//! - `tracking`: the collision history of a body;
//! - `schedule`: the order of the passes within a tick;
//! - `state_value`, `timer`, `color_picker`, `collider_import`: small rules of
//!   the game built on the engine.
//!
//! Scalars enter the library as *ordinates*: integers that are ordered as the
//! scalars are, with zero for zero. The caller chooses the encoding and does the
//! arithmetic; where a search depends on a computed answer, the caller hands in
//! the computation as a closure.

pub mod collider;
pub mod collider_import;
pub mod color_picker;
pub mod geometry;
pub mod kd_tree;
pub mod ray;
pub mod schedule;
pub mod sorting;
pub mod state_value;
pub mod timer;
pub mod tracking;
