use vstd::prelude::*;
use crate::Entity;

verus! {

/// A reference from a child entity to its parent entity. The authoritative
/// source of truth for the hierarchy's shape.
#[derive(Debug, Copy, Clone, PartialEq, Eq, Structural)]
pub struct Parent(pub Entity);

/// The parent value last observed by the hierarchy maintainer (or none, on
/// an entity that never had its parent link processed before).
#[derive(Debug, Copy, Clone, PartialEq, Eq)]
pub struct PreviousParent(pub Option<Entity>);

} // verus!
