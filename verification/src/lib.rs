//! A verified scene-graph transform core: it keeps a parent/child entity
//! hierarchy consistent, assigns topological depths, composes decomposed
//! translation/rotation/scale fields into local matrices, and propagates
//! world-space matrices from roots down to their descendants.
//!
//! Matrices hold the IEEE-754 bit patterns of single-precision entries as
//! `u32` values. The core itself never does floating-point arithmetic: the
//! few genuinely arithmetic matrix operations are handed to the host as
//! explicit, contract-pinned requests, and the host answers them with the
//! computed bit patterns.

use vstd::prelude::*;

pub mod components;
pub mod dynamic_array;
pub mod local_to_parent_system;
pub mod local_to_world_propagate_system;
pub mod local_to_world_system;
pub mod missing_previous_parent_system;
pub mod parent_system;
pub mod parent_update_system;
pub mod transform_system;
pub mod transform_system_bundle;
pub mod world;

verus! {

/// An entity is an index into the world's per-entity tables.
pub type Entity = usize;

} // verus!
